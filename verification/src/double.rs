//! Double-precision numbers, held by their bit patterns.
//!
//! The library carries coordinates, zoom levels, line widths and JSON numbers
//! through its data structures, and it decides on them: which is smaller, what
//! integer lies below, whether two are equal. None of that rounds, so it is
//! done here on the IEEE 754 bit pattern and stated over integers: every
//! finite double is a whole multiple of 2^-1074.

use vstd::arithmetic::div_mod::*;
use vstd::arithmetic::mul::*;
use vstd::arithmetic::power2::*;
use vstd::prelude::*;

verus! {

/// 2^52: the weight of the implicit leading bit of a mantissa.
pub const HIDDEN_BIT: u64 = 0x10_0000_0000_0000;

/// 2^63: the sign bit.
pub const SIGN_BIT: u64 = 0x8000_0000_0000_0000;

/// The magnitude pattern of infinity; every larger one is a NaN.
pub const INFINITY: u64 = 0x7ff0_0000_0000_0000;

/// The pattern of the number 1.
pub const ONE: u64 = 0x3ff0_0000_0000_0000;

/// A double, by its IEEE 754 bit pattern.
#[derive(Clone, Copy, Debug)]
pub struct Double {
    pub bits: u64,
}

/// The exponent field of a magnitude pattern.
pub open spec fn exponent_field(mag: nat) -> nat {
    mag / (HIDDEN_BIT as nat)
}

/// The mantissa of a magnitude pattern, with the implicit bit where there is one.
pub open spec fn mantissa(mag: nat) -> nat {
    if exponent_field(mag) == 0 {
        mag % (HIDDEN_BIT as nat)
    } else {
        HIDDEN_BIT as nat + mag % (HIDDEN_BIT as nat)
    }
}

/// The power of two by which the mantissa is scaled, in units of 2^-1074.
pub open spec fn scale_of(mag: nat) -> nat {
    if exponent_field(mag) == 0 {
        0
    } else {
        (exponent_field(mag) - 1) as nat
    }
}

/// The absolute value that a magnitude pattern stands for, in units of 2^-1074.
pub open spec fn magnitude(mag: nat) -> nat {
    mantissa(mag) * pow2(scale_of(mag))
}

impl Double {
    /// The pattern without its sign.
    pub open spec fn mag(self) -> nat {
        (self.bits % SIGN_BIT) as nat
    }

    pub open spec fn negative(self) -> bool {
        self.bits >= SIGN_BIT
    }

    pub open spec fn nan(self) -> bool {
        self.mag() > INFINITY
    }

    pub open spec fn finite(self) -> bool {
        self.mag() < INFINITY
    }

    /// The number itself, in units of 2^-1074 (infinity as the value that
    /// would follow the largest finite one).
    pub open spec fn value(self) -> int {
        if self.negative() {
            -(magnitude(self.mag()) as int)
        } else {
            magnitude(self.mag()) as int
        }
    }

    /// `self < other`; never with a NaN.
    pub open spec fn below(self, other: Double) -> bool {
        !self.nan() && !other.nan() && self.value() < other.value()
    }

    /// `self <= other`; never with a NaN.
    pub open spec fn at_most(self, other: Double) -> bool {
        !self.nan() && !other.nan() && self.value() <= other.value()
    }

    /// `self == other`; never with a NaN.
    pub open spec fn same(self, other: Double) -> bool {
        !self.nan() && !other.nan() && self.value() == other.value()
    }
}

proof fn lemma_magnitude_increases(a: nat, b: nat)
    requires
        a < b,
        b < SIGN_BIT,
    ensures
        magnitude(a) < magnitude(b),
{
    let h = HIDDEN_BIT as nat;
    let (ea, eb) = (exponent_field(a), exponent_field(b));
    assert(ea <= eb);
    assert(a == h * ea + a % h && b == h * eb + b % h) by {
        lemma_fundamental_div_mod(a as int, h as int);
        lemma_fundamental_div_mod(b as int, h as int);
    }
    lemma_pow2_pos(scale_of(a));
    lemma_pow2_pos(scale_of(b));
    if scale_of(a) == scale_of(b) {
        if ea == eb {
            assert(a % h < b % h);
        }
        assert(mantissa(a) < mantissa(b));
        lemma_mul_strict_inequality(
            mantissa(a) as int,
            mantissa(b) as int,
            pow2(scale_of(a)) as int,
        );
    } else {
        assert(ea < eb && eb >= 2);
        assert(scale_of(a) < scale_of(b));
        // One exponent up is at least twice as far.
        lemma_pow2_adds(1, scale_of(a));
        lemma2_to64();
        if scale_of(a) + 1 < scale_of(b) {
            lemma_pow2_strictly_increases(scale_of(a) + 1, scale_of(b));
        }
        assert(2 * pow2(scale_of(a)) <= pow2(scale_of(b)));
        assert(mantissa(a) < 2 * h && mantissa(b) >= h);
        assert(magnitude(a) < 2 * h * pow2(scale_of(a))) by (nonlinear_arith)
            requires
                magnitude(a) == mantissa(a) * pow2(scale_of(a)),
                mantissa(a) < 2 * h,
                pow2(scale_of(a)) > 0,
        ;
        assert(magnitude(b) >= h * pow2(scale_of(b))) by (nonlinear_arith)
            requires
                magnitude(b) == mantissa(b) * pow2(scale_of(b)),
                mantissa(b) >= h,
                pow2(scale_of(b)) > 0,
        ;
        assert(2 * h * pow2(scale_of(a)) <= h * pow2(scale_of(b))) by (nonlinear_arith)
            requires
                2 * pow2(scale_of(a)) <= pow2(scale_of(b)),
                h > 0,
        ;
    }
}

/// Patterns of magnitudes are ordered as what they stand for.
pub proof fn lemma_magnitude_order(a: nat, b: nat)
    requires
        a < SIGN_BIT,
        b < SIGN_BIT,
    ensures
        a < b <==> magnitude(a) < magnitude(b),
        a == b <==> magnitude(a) == magnitude(b),
        magnitude(a) == 0 <==> a == 0,
{
    if a < b {
        lemma_magnitude_increases(a, b);
    } else if b < a {
        lemma_magnitude_increases(b, a);
    }
    assert(mantissa(0) == 0);
    lemma_mul_basics(pow2(0) as int);
    assert(magnitude(0) == 0);
    if a > 0 {
        lemma_magnitude_increases(0, a);
    }
}

impl Double {
    pub fn from_bits(bits: u64) -> (r: Double)
        ensures
            r.bits == bits,
    {
        Double { bits }
    }

    pub fn is_nan(&self) -> (r: bool)
        ensures
            r == self.nan(),
    {
        self.bits % SIGN_BIT > INFINITY
    }

    pub fn is_finite(&self) -> (r: bool)
        ensures
            r == self.finite(),
    {
        self.bits % SIGN_BIT < INFINITY
    }

    /// Whether `self < other`.
    pub fn is_below(&self, other: &Double) -> (r: bool)
        ensures
            r == self.below(*other),
    {
        proof {
            lemma_magnitude_order(self.mag(), other.mag());
            lemma_magnitude_order(other.mag(), self.mag());
        }
        if self.is_nan() || other.is_nan() {
            return false;
        }
        let a: u64 = self.bits % SIGN_BIT;
        let b: u64 = other.bits % SIGN_BIT;
        if self.bits >= SIGN_BIT {
            if other.bits >= SIGN_BIT {
                b < a
            } else {
                a != 0 || b != 0
            }
        } else if other.bits >= SIGN_BIT {
            false
        } else {
            a < b
        }
    }

    /// Whether `self <= other`.
    pub fn is_at_most(&self, other: &Double) -> (r: bool)
        ensures
            r == self.at_most(*other),
    {
        !self.is_nan() && !other.is_nan() && !other.is_below(self)
    }

    /// Whether `self == other`.
    pub fn is_same(&self, other: &Double) -> (r: bool)
        ensures
            r == self.same(*other),
    {
        self.is_at_most(other) && other.is_at_most(self)
    }

    /// `self` held within `[low, high]`; a NaN stays as it is.
    pub open spec fn clamped(self, low: Double, high: Double) -> Double {
        if self.below(low) {
            low
        } else if high.below(self) {
            high
        } else {
            self
        }
    }

    /// Holds `self` within `[low, high]`.
    pub fn clamp(&self, low: &Double, high: &Double) -> (r: Double)
        requires
            low.at_most(*high),
        ensures
            r == self.clamped(*low, *high),
    {
        if self.is_below(low) {
            *low
        } else if high.is_below(self) {
            *high
        } else {
            *self
        }
    }
}

/// The number 1, in units of 2^-1074.
pub open spec fn one() -> int {
    pow2(1074) as int
}

/// The pattern of the number 1 stands for it.
pub proof fn lemma_one()
    ensures
        !(Double { bits: ONE }).nan(),
        (Double { bits: ONE }).value() == one(),
        one() > 0,
{
    lemma2_to64();
    lemma2_to64_rest();
    lemma_pow2_adds(52, 1022);
    lemma_pow2_pos(1074);
    assert(exponent_field(ONE as nat) == 1023);
    assert(mantissa(ONE as nat) == HIDDEN_BIT);
}

/// `v` held within the range of an `i32`.
pub open spec fn saturated_i32(v: int) -> int {
    if v < i32::MIN {
        i32::MIN as int
    } else if v > i32::MAX {
        i32::MAX as int
    } else {
        v
    }
}

impl Double {
    /// The largest integer that is not above the number.
    pub open spec fn floor(self) -> int {
        self.value() / one()
    }

    /// The largest integer that is not above the number, held within the range
    /// of an `i32`; 0 for a NaN.
    pub fn floor_i32(&self) -> (r: i32)
        ensures
            self.nan() ==> r == 0,
            !self.nan() ==> r == saturated_i32(self.floor()),
    {
        if self.is_nan() {
            return 0;
        }
        let mag: u64 = self.bits % SIGN_BIT;
        let negative: bool = self.bits >= SIGN_BIT;
        let field: u64 = mag / HIDDEN_BIT;
        proof {
            lemma_pow2_pos(1074);
            lemma_magnitude_order(mag as nat, 0);
        }
        if field < 1023 {
            proof {
                // Below one.
                lemma_below_power(mag as nat);
                if magnitude(mag as nat) > 0 {
                    lemma_floor_of_small(-(magnitude(mag as nat) as int), one());
                }
                lemma_small_mod(magnitude(mag as nat), pow2(1074));
                lemma_basic_div(magnitude(mag as nat) as int, one());
            }
            return if negative && mag != 0 { -1 } else { 0 };
        }
        if field >= 1055 {
            proof {
                lemma_far_from_zero(mag as nat);
                let m = magnitude(mag as nat) as int;
                assert(m >= 0x1_0000_0000 * one());
                lemma_div_is_ordered(0x1_0000_0000 * one(), m, one());
                lemma_div_by_multiple(0x1_0000_0000, one());
                lemma_div_is_ordered(-m, -0x1_0000_0000 * one(), one());
                lemma_fundamental_div_mod_converse(
                    -0x1_0000_0000 * one(),
                    one(),
                    -0x1_0000_0000,
                    0,
                );
            }
            return if negative { i32::MIN } else { i32::MAX };
        }
        let shift: u64 = 1075 - field;
        let whole_mantissa: u64 = HIDDEN_BIT + mag % HIDDEN_BIT;
        let whole: u64 = whole_mantissa >> shift;
        let rest: bool = (whole << shift) != whole_mantissa;
        proof {
            lemma_split_mantissa(mag as nat, whole_mantissa, shift, whole);
        }
        if negative {
            if rest {
                if whole >= 0x8000_0000 {
                    i32::MIN
                } else {
                    (-(whole as i64) - 1) as i32
                }
            } else {
                if whole > 0x8000_0000 {
                    i32::MIN
                } else {
                    (-(whole as i64)) as i32
                }
            }
        } else if whole > 0x7fff_ffff {
            i32::MAX
        } else {
            whole as i32
        }
    }
}

/// A magnitude with an exponent field under 1023 is less than one.
pub proof fn lemma_below_power(mag: nat)
    requires
        exponent_field(mag) < 1023,
    ensures
        magnitude(mag) < pow2(1074),
{
    let s = scale_of(mag);
    assert(mantissa(mag) < 2 * HIDDEN_BIT as nat);
    lemma_pow2_pos(s);
    assert(magnitude(mag) < 2 * HIDDEN_BIT as nat * pow2(s)) by (nonlinear_arith)
        requires
            magnitude(mag) == mantissa(mag) * pow2(s),
            mantissa(mag) < 2 * HIDDEN_BIT as nat,
            pow2(s) > 0,
    ;
    lemma2_to64();
    assert(2 * HIDDEN_BIT == pow2(53)) by {
        lemma2_to64_rest();
    }
    lemma_pow2_adds(53, s);
    if 53 + s < 1074 {
        lemma_pow2_strictly_increases(53 + s, 1074);
    }
}

/// A magnitude with an exponent field of 1055 or more is at least 2^32.
proof fn lemma_far_from_zero(mag: nat)
    requires
        exponent_field(mag) >= 1055,
    ensures
        magnitude(mag) >= 0x1_0000_0000 * one(),
{
    let s = scale_of(mag);
    lemma2_to64();
    lemma2_to64_rest();
    assert(HIDDEN_BIT == pow2(52));
    lemma_pow2_adds(52, s);
    lemma_pow2_adds(32, 1074);
    if 1106 < 52 + s {
        lemma_pow2_strictly_increases(1106, 52 + s);
    }
    assert(magnitude(mag) >= HIDDEN_BIT as nat * pow2(s)) by (nonlinear_arith)
        requires
            magnitude(mag) == mantissa(mag) * pow2(s),
            mantissa(mag) >= HIDDEN_BIT as nat,
    ;
}

proof fn lemma_floor_of_small(v: int, unit: int)
    requires
        -unit < v < 0,
    ensures
        v / unit == -1,
{
    lemma_fundamental_div_mod_converse(v, unit, -1, v + unit);
}

/// Cutting a mantissa at the binary point gives the whole part.
pub proof fn lemma_split_mantissa(mag: nat, m: u64, shift: u64, whole: u64)
    requires
        1023 <= exponent_field(mag) <= 1075,
        m == mantissa(mag),
        shift == 1075 - exponent_field(mag),
        whole == m >> shift,
    ensures
        (whole << shift) <= m,
        magnitude(mag) as int / one() == whole,
        (whole << shift) == m ==> magnitude(mag) as int % one() == 0 && -(magnitude(mag) as int)
            / one() == -(whole as int),
        (whole << shift) != m ==> -(magnitude(mag) as int) / one() == -(whole as int) - 1,
        whole < 0x1_0000_0000_0000_0000,
{
    let s = scale_of(mag);
    assert(shift <= 52);
    vstd::bits::lemma_u64_shr_is_div(m, shift);
    assert((m >> shift) << shift <= m) by (bit_vector)
        requires
            shift < 64,
    ;
    let p = pow2(shift as nat);
    let q = pow2(s);
    lemma_pow2_pos(shift as nat);
    lemma_pow2_pos(s);
    lemma_pow2_adds(shift as nat, s);
    assert(one() == p * q);
    let r = m as int % p as int;
    lemma_fundamental_div_mod(m as int, p as int);
    assert(m == p * whole + r);
    // The bits that the shift drops are the remainder.
    assert(whole * p <= u64::MAX) by (nonlinear_arith)
        requires
            m == p * whole + r,
            r >= 0,
            m <= u64::MAX,
    ;
    vstd::bits::lemma_u64_shl_is_mul(whole, shift);
    assert((whole << shift) == m <==> r == 0) by (nonlinear_arith)
        requires
            (whole << shift) == whole * p,
            m == p * whole + r,
    ;
    let v = magnitude(mag) as int;
    assert(v == one() * whole + r * q) by (nonlinear_arith)
        requires
            v == m * q,
            m == p * whole + r,
            one() == p * q,
    ;
    assert(0 <= r * q < one()) by (nonlinear_arith)
        requires
            0 <= r < p,
            q > 0,
            one() == p * q,
    ;
    lemma_fundamental_div_mod_converse(v, one(), whole as int, r * q);
    if r == 0 {
        assert(r * q == 0) by (nonlinear_arith)
            requires
                r == 0,
        ;
        assert(-v == one() * (-(whole as int)) + 0) by (nonlinear_arith)
            requires
                v == one() * whole,
        ;
        lemma_fundamental_div_mod_converse(-v, one(), -(whole as int), 0);
    } else {
        assert(r * q > 0) by (nonlinear_arith)
            requires
                r > 0,
                q > 0,
        ;
        assert(-v == one() * (-(whole as int) - 1) + (one() - r * q)) by (nonlinear_arith)
            requires
                v == one() * whole + r * q,
        ;
        lemma_fundamental_div_mod_converse(-v, one(), -(whole as int) - 1, one() - r * q);
    }
}

/// 2^-106, in units of 2^-1074.
pub open spec fn fine_unit() -> int {
    pow2(968) as int
}

/// 2^54 - 1: the bound of [`Double::near`] in units of 2^-106.
pub const NEAR_BOUND: u128 = 0x3f_ffff_ffff_ffff;

impl Double {
    /// Whether the rounded difference of two numbers is smaller than 2^-52 in
    /// absolute value, that is whether the exact difference is smaller than
    /// 2^-52 - 2^-106: from there on it rounds to 2^-52 or more.
    pub open spec fn near(self, other: Double) -> bool {
        &&& self.finite()
        &&& other.finite()
        &&& -(NEAR_BOUND * fine_unit()) < self.value() - other.value() < NEAR_BOUND * fine_unit()
    }

    /// Whether two numbers are equal up to the machine epsilon.
    pub fn is_near(&self, other: &Double) -> (r: bool)
        ensures
            r == self.near(*other),
    {
        if !self.is_finite() || !other.is_finite() {
            return false;
        }
        let a: u64 = self.bits % SIGN_BIT;
        let b: u64 = other.bits % SIGN_BIT;
        let same_sign: bool = (self.bits >= SIGN_BIT) == (other.bits >= SIGN_BIT);
        if a / HIDDEN_BIT >= 1024 || b / HIDDEN_BIT >= 1024 {
            proof {
                lemma_far_apart(a as nat, b as nat, same_sign);
            }
            return same_sign && a == b;
        }
        let (ka, ra): (u128, bool) = fixed_point(a);
        let (kb, rb): (u128, bool) = fixed_point(b);
        proof {
            lemma_fixed_compare(magnitude(a as nat), magnitude(b as nat), ka, kb);
            lemma_fixed_compare(magnitude(b as nat), magnitude(a as nat), kb, ka);
        }
        if same_sign {
            if ka >= kb {
                ka - kb < NEAR_BOUND || (ka - kb == NEAR_BOUND && rb)
            } else {
                kb - ka < NEAR_BOUND || (kb - ka == NEAR_BOUND && ra)
            }
        } else {
            ka + kb < NEAR_BOUND
        }
    }
}

/// The magnitude in whole units of 2^-106, and whether anything is left over.
/// What has a left-over part is small.
fn fixed_point(mag: u64) -> (r: (u128, bool))
    requires
        mag / HIDDEN_BIT < 1024,
    ensures
        r.0 == magnitude(mag as nat) as int / fine_unit(),
        r.1 == (magnitude(mag as nat) as int % fine_unit() != 0),
        r.1 ==> r.0 < HIDDEN_BIT,
        r.0 < 0x1000_0000_0000_0000_0000_0000_0000_0000,
{
    let field: u64 = mag / HIDDEN_BIT;
    let scale: u64 = if field == 0 {
        0
    } else {
        field - 1
    };
    let m: u64 = if field == 0 {
        mag % HIDDEN_BIT
    } else {
        HIDDEN_BIT + mag % HIDDEN_BIT
    };
    let ghost v = magnitude(mag as nat) as int;
    proof {
        lemma_pow2_pos(968);
        lemma2_to64();
        lemma2_to64_rest();
    }
    if scale >= 968 {
        let up: u64 = scale - 968;
        proof {
            lemma_pow2_adds(up as nat, 968);
            lemma_pow2_pos(up as nat);
            if up < 54 {
                lemma_pow2_strictly_increases(up as nat, 54);
            }
            vstd::bits::lemma_u64_shl_is_mul(1, up);
        }
        let factor: u64 = 1u64 << up;
        proof {
            assert(0 <= m * factor < 0x80_0000_0000_0000_0000_0000_0000_0000) by (nonlinear_arith)
                requires
                    0 <= m < 0x20_0000_0000_0000,
                    0 <= factor <= 0x40_0000_0000_0000,
            ;
        }
        let k: u128 = (m as u128) * (factor as u128);
        proof {
            assert(v == k * fine_unit() + 0) by (nonlinear_arith)
                requires
                    v == m * pow2(scale as nat),
                    k == m * pow2(up as nat),
                    pow2(scale as nat) == pow2(up as nat) * pow2(968),
                    fine_unit() == pow2(968),
            ;
            lemma_fundamental_div_mod_converse(v, fine_unit(), k as int, 0);
        }
        (k, false)
    } else {
        let down: u64 = 968 - scale;
        proof {
            lemma_pow2_adds(down as nat, scale as nat);
            lemma_pow2_pos(down as nat);
            lemma_pow2_pos(scale as nat);
        }
        let ghost p = pow2(down as nat) as int;
        let ghost q = pow2(scale as nat) as int;
        if down >= 63 {
            proof {
                if 63 < down {
                    lemma_pow2_strictly_increases(63, down as nat);
                }
                assert(v < fine_unit()) by (nonlinear_arith)
                    requires
                        v == m * q,
                        fine_unit() == p * q,
                        m < p,
                        q > 0,
                ;
                lemma_small_mod(v as nat, pow2(968));
                lemma_basic_div(v, fine_unit());
                assert(v == 0 <==> m == 0) by (nonlinear_arith)
                    requires
                        v == m * q,
                        q > 0,
                ;
            }
            return (0, m != 0);
        }
        let k: u64 = m >> down;
        let rest: bool = (k << down) != m;
        proof {
            vstd::bits::lemma_u64_shr_is_div(m, down);
            let r = m as int % p;
            lemma_fundamental_div_mod(m as int, p);
            assert(k * p <= m) by (nonlinear_arith)
                requires
                    m == p * k + r,
                    r >= 0,
            ;
            vstd::bits::lemma_u64_shl_is_mul(k, down);
            assert((k << down) == m <==> r == 0) by (nonlinear_arith)
                requires
                    (k << down) == k * p,
                    m == p * k + r,
            ;
            assert(v == k * fine_unit() + r * q) by (nonlinear_arith)
                requires
                    v == m * q,
                    m == p * k + r,
                    fine_unit() == p * q,
            ;
            assert(0 <= r * q < fine_unit() && (r * q == 0 <==> r == 0)) by (nonlinear_arith)
                requires
                    0 <= r < p,
                    q > 0,
                    fine_unit() == p * q,
            ;
            lemma_fundamental_div_mod_converse(v, fine_unit(), k as int, r * q);
            if 1 < down {
                lemma_pow2_strictly_increases(1, down as nat);
            }
            assert(2 * k <= m) by (nonlinear_arith)
                requires
                    k * p <= m,
                    p >= 2,
            ;
        }
        (k as u128, rest)
    }
}

/// From 2 on, neighbours are at least 2^-52 apart.
proof fn lemma_far_apart(a: nat, b: nat, same_sign: bool)
    requires
        a < INFINITY,
        b < INFINITY,
        exponent_field(a) >= 1024 || exponent_field(b) >= 1024,
    ensures
        ({
            let d = if same_sign {
                magnitude(a) - magnitude(b)
            } else {
                magnitude(a) as int + magnitude(b)
            };
            (-(NEAR_BOUND * fine_unit()) < d < NEAR_BOUND * fine_unit()) <==> (same_sign && a == b)
        }),
{
    lemma_pow2_pos(968);
    assert(0 < NEAR_BOUND * fine_unit()) by (nonlinear_arith)
        requires
            fine_unit() > 0,
            NEAR_BOUND > 0,
    ;
    if a < b {
        lemma_gap(a, b);
    } else if b < a {
        lemma_gap(b, a);
    } else {
        lemma_gap(0, a);
    }
    if a != b {
        assert(magnitude(a) + magnitude(b) >= magnitude(a) - magnitude(b));
        assert(magnitude(a) + magnitude(b) >= magnitude(b) - magnitude(a));
    }
    assert(mantissa(0) == 0);
    lemma_mul_basics(pow2(0) as int);
}

proof fn lemma_gap(a: nat, b: nat)
    requires
        a < b < INFINITY,
        exponent_field(b) >= 1024,
    ensures
        magnitude(b) - magnitude(a) >= NEAR_BOUND * fine_unit(),
{
    // The predecessor of `b` is no closer than a unit of the binade below it.
    let h = HIDDEN_BIT as nat;
    let c = (b - 1) as nat;
    lemma_magnitude_order(a, c);
    lemma_fundamental_div_mod(b as int, h as int);
    lemma_fundamental_div_mod(c as int, h as int);
    lemma2_to64();
    lemma2_to64_rest();
    let sb = scale_of(b);
    lemma_pow2_pos(968);
    lemma_pow2_adds(54, 968);
    assert(pow2(1022) >= NEAR_BOUND * fine_unit()) by (nonlinear_arith)
        requires
            pow2(1022) == pow2(54) * pow2(968),
            pow2(54) == 0x40_0000_0000_0000,
            NEAR_BOUND == 0x3f_ffff_ffff_ffff,
            fine_unit() == pow2(968),
            pow2(968) > 0,
    ;
    if b % h > 0 {
        assert(exponent_field(c) == exponent_field(b)) by {
            lemma_fundamental_div_mod_converse(
                c as int,
                h as int,
                exponent_field(b) as int,
                b % h - 1,
            );
        }
        assert(mantissa(b) == mantissa(c) + 1) by {
            lemma_fundamental_div_mod_converse(
                c as int,
                h as int,
                exponent_field(b) as int,
                b % h - 1,
            );
        }
        assert(magnitude(b) - magnitude(c) == pow2(sb)) by (nonlinear_arith)
            requires
                magnitude(b) == mantissa(b) * pow2(sb),
                magnitude(c) == mantissa(c) * pow2(sb),
                mantissa(b) == mantissa(c) + 1,
        ;
        if 1022 < sb {
            lemma_pow2_strictly_increases(1022, sb);
        }
    } else {
        lemma_fundamental_div_mod_converse(
            c as int,
            h as int,
            exponent_field(b) - 1,
            h - 1,
        );
        let sc = scale_of(c);
        assert(sc + 1 == sb);
        lemma_pow2_adds(1, sc);
        assert(mantissa(b) == h && mantissa(c) == 2 * h - 1);
        assert(magnitude(b) - magnitude(c) == pow2(sc)) by (nonlinear_arith)
            requires
                magnitude(b) == h * pow2(sb),
                magnitude(c) == (2 * h - 1) * pow2(sc),
                pow2(sb) == 2 * pow2(sc),
        ;
        if 1022 < sc {
            lemma_pow2_strictly_increases(1022, sc);
        }
    }
}

/// How two magnitudes that were cut at 2^-106 compare.
proof fn lemma_fixed_compare(a: nat, b: nat, ka: u128, kb: u128)
    requires
        ka == a as int / fine_unit(),
        kb == b as int / fine_unit(),
        a as int % fine_unit() != 0 ==> ka < HIDDEN_BIT,
        b as int % fine_unit() != 0 ==> kb < HIDDEN_BIT,
    ensures
        ka >= kb ==> ((-(NEAR_BOUND * fine_unit()) < a - b < NEAR_BOUND * fine_unit()) <==> (ka - kb
            < NEAR_BOUND || (ka - kb == NEAR_BOUND && b as int % fine_unit() != 0))),
        (a + b < NEAR_BOUND * fine_unit()) <==> ka + kb < NEAR_BOUND,
{
    let u = fine_unit();
    lemma_pow2_pos(968);
    let (x, y) = (ka as int, kb as int);
    let (ra, rb) = (a as int % u, b as int % u);
    lemma_fundamental_div_mod(a as int, u);
    lemma_fundamental_div_mod(b as int, u);
    lemma_mod_bound(a as int, u);
    lemma_mod_bound(b as int, u);
    let n = NEAR_BOUND as int;
    assert(a - b == u * (x - y) + (ra - rb)) by (nonlinear_arith)
        requires
            a == u * x + ra,
            b == u * y + rb,
    ;
    assert(a + b == u * (x + y) + (ra + rb)) by (nonlinear_arith)
        requires
            a == u * x + ra,
            b == u * y + rb,
    ;
    if x >= y {
        let d = x - y;
        assert(u * d + (ra - rb) > -(n * u)) by (nonlinear_arith)
            requires
                u > 0,
                d >= 0,
                n >= 1,
                ra >= 0,
                rb < u,
        ;
        if d < n {
            assert(u * d + (ra - rb) < n * u) by (nonlinear_arith)
                requires
                    u > 0,
                    d <= n - 1,
                    ra < u,
                    rb >= 0,
            ;
        } else if d == n {
            assert(ra == 0);
            assert(u * d == n * u) by (nonlinear_arith)
                requires
                    d == n,
            ;
        } else {
            assert(u * d + (ra - rb) >= n * u) by (nonlinear_arith)
                requires
                    u > 0,
                    d >= n + 1,
                    ra >= 0,
                    rb < u,
            ;
        }
    }
    let s = x + y;
    if s < n {
        if s <= n - 2 {
            assert(u * s + (ra + rb) < n * u) by (nonlinear_arith)
                requires
                    u > 0,
                    s <= n - 2,
                    ra < u,
                    rb < u,
            ;
        } else {
            assert(ra == 0 || rb == 0);
            assert(u * s + u == n * u) by (nonlinear_arith)
                requires
                    s == n - 1,
            ;
        }
    } else {
        assert(u * s >= n * u) by (nonlinear_arith)
            requires
                u > 0,
                s >= n,
        ;
    }
}

impl Double {
    /// The same number with the other sign.
    pub open spec fn negated(self) -> Double {
        if self.bits >= SIGN_BIT {
            Double { bits: (self.bits - SIGN_BIT) as u64 }
        } else {
            Double { bits: (self.bits + SIGN_BIT) as u64 }
        }
    }

    pub fn negate(&self) -> (r: Double)
        ensures
            r == self.negated(),
            r.value() == -self.value(),
            r.mag() == self.mag(),
    {
        proof {
            if magnitude(self.mag()) == 0 {
                lemma_magnitude_order(0, self.mag());
                assert(mantissa(0) == 0);
                lemma_mul_basics(pow2(0) as int);
            }
        }
        if self.bits >= SIGN_BIT {
            Double { bits: self.bits - SIGN_BIT }
        } else {
            Double { bits: self.bits + SIGN_BIT }
        }
    }

    /// The least integer that is not below the number.
    pub open spec fn ceil(self) -> int {
        -((-self.value()) / one())
    }

    /// The least integer that is not below the number, held within the range
    /// of an `i32`; 0 for a NaN.
    pub fn ceil_i32(&self) -> (r: i32)
        ensures
            self.nan() ==> r == 0,
            !self.nan() ==> r == saturated_i32(self.ceil()),
    {
        let below: i32 = self.negate().floor_i32();
        if below == i32::MIN {
            i32::MAX
        } else if below == i32::MAX {
            // Either the bound itself or a number beyond it.
            let limit: Double = Double::from_i64(-0x8000_0000);
            proof {
                lemma_pow2_pos(1074);
                let n = -self.value();
                lemma_fundamental_div_mod(n, one());
                if self.at_most(limit) {
                    lemma_div_is_ordered(0x8000_0000 * one(), n, one());
                    lemma_div_by_multiple(0x8000_0000, one());
                } else {
                    assert(n < 0x8000_0000 * one());
                    lemma_multiply_divide_lt(n, one(), 0x8000_0000);
                }
            }
            if self.is_at_most(&limit) {
                i32::MIN
            } else {
                -i32::MAX
            }
        } else {
            -below
        }
    }

    /// The number without its fractional part.
    pub open spec fn trunc(self) -> int {
        if self.negative() {
            self.ceil()
        } else {
            self.floor()
        }
    }

    /// The number as an `i32`, as a cast gives it: without its fractional
    /// part, held within the range; 0 for a NaN.
    pub open spec fn as_i32(self) -> int {
        if self.nan() {
            0
        } else {
            saturated_i32(self.trunc())
        }
    }

    pub fn to_i32(&self) -> (r: i32)
        ensures
            r == self.as_i32(),
    {
        if self.bits >= SIGN_BIT {
            self.ceil_i32()
        } else {
            self.floor_i32()
        }
    }

    /// Whether the number is greater than `k` sixteenths.
    pub open spec fn above_sixteenths(self, k: int) -> bool {
        !self.nan() && 16 * self.value() > k * one()
    }

    pub fn is_above_sixteenths(&self, k: u8) -> (r: bool)
        requires
            k < 16,
        ensures
            r == self.above_sixteenths(k as int),
    {
        let mag: u64 = self.bits % SIGN_BIT;
        proof {
            lemma_pow2_pos(1074);
        }
        if self.is_nan() {
            return false;
        }
        if self.bits >= SIGN_BIT {
            proof {
                assert(k * one() >= 0) by (nonlinear_arith)
                    requires
                        one() > 0,
                        k >= 0,
                ;
            }
            return false;
        }
        if mag / HIDDEN_BIT >= 1023 {
            proof {
                lemma_at_least_one(mag as nat);
                assert(k * one() < 16 * one()) by (nonlinear_arith)
                    requires
                        one() > 0,
                        k < 16,
                ;
            }
            return true;
        }
        let (whole, rest): (u128, bool) = fixed_point(mag);
        let bar: u128 = k as u128 * 0x40_0000_0000_0000_0000_0000_0000;
        proof {
            lemma_sixteenths(magnitude(mag as nat), k as int, whole, bar);
        }
        whole > bar || (whole == bar && rest)
    }
}

/// A magnitude with an exponent field of 1023 or more is at least one.
proof fn lemma_at_least_one(mag: nat)
    requires
        exponent_field(mag) >= 1023,
    ensures
        magnitude(mag) >= one(),
{
    let s = scale_of(mag);
    lemma2_to64();
    lemma2_to64_rest();
    lemma_pow2_adds(52, s);
    if 1074 < 52 + s {
        lemma_pow2_strictly_increases(1074, 52 + s);
    }
    assert(magnitude(mag) >= HIDDEN_BIT as nat * pow2(s)) by (nonlinear_arith)
        requires
            magnitude(mag) == mantissa(mag) * pow2(s),
            mantissa(mag) >= HIDDEN_BIT as nat,
    ;
}

proof fn lemma_sixteenths(v: nat, k: int, whole: u128, bar: u128)
    requires
        whole == v as int / fine_unit(),
        bar == k * 0x40_0000_0000_0000_0000_0000_0000,
    ensures
        16 * v > k * one() <==> whole > bar || (whole == bar && v as int % fine_unit() != 0),
{
    let u = fine_unit();
    lemma_pow2_pos(968);
    lemma2_to64();
    lemma2_to64_rest();
    lemma_pow2_adds(53, 53);
    lemma_pow2_adds(106, 968);
    let c: int = 0x40_0000_0000_0000_0000_0000_0000;
    assert(16 * c == pow2(106));
    assert(one() == 16 * c * u);
    let (w, r) = (whole as int, v as int % u);
    lemma_fundamental_div_mod(v as int, u);
    lemma_mod_bound(v as int, u);
    assert(16 * v == 16 * (u * w) + 16 * r);
    assert(k * one() == 16 * (u * bar)) by (nonlinear_arith)
        requires
            one() == 16 * c * u,
            bar == k * c,
    ;
    if w > bar {
        assert(u * w >= u * bar + u) by (nonlinear_arith)
            requires
                u > 0,
                w >= bar + 1,
        ;
    } else if w < bar {
        assert(u * w + u <= u * bar) by (nonlinear_arith)
            requires
                u > 0,
                w + 1 <= bar,
        ;
    }
}

/// By how many bits a number is too long for a mantissa.
pub open spec fn excess_bits(n: nat) -> nat
    decreases n,
{
    if n < 2 * HIDDEN_BIT {
        0
    } else {
        1 + excess_bits(n / 2)
    }
}

/// The integer that a double holds in place of `n`: the nearest, of two that
/// are equally near the one with an even mantissa.
pub open spec fn nearest(n: nat) -> nat {
    let p = pow2(excess_bits(n));
    let q = n / p;
    let r = n % p;
    if 2 * r > p || (2 * r == p && q % 2 == 1) {
        (q + 1) * p
    } else {
        q * p
    }
}

/// The double that holds an integer, or the nearest to it.
pub open spec fn double_of(n: int) -> Double {
    if n >= 0 {
        double_of_natural(n as nat)
    } else {
        double_of_natural((-n) as nat).negated()
    }
}

pub open spec fn double_of_natural(n: nat) -> Double {
    choose|d: Double| d.finite() && !d.negative() && d.value() == nearest(n) * one()
}

proof fn lemma_double_of(d: Double, n: int)
    requires
        n >= 0,
        d.finite(),
        !d.negative(),
        d.value() == nearest(n as nat) * one(),
    ensures
        d == double_of(n),
        d == double_of_natural(n as nat),
{
    lemma_value_determines(d, double_of_natural(n as nat));
}

/// A normal number from its parts.
pub proof fn lemma_compose(q: nat, field: nat)
    requires
        HIDDEN_BIT <= q < 2 * HIDDEN_BIT,
        1 <= field < 2047,
    ensures
        field * HIDDEN_BIT + (q - HIDDEN_BIT) < INFINITY,
        magnitude((field * HIDDEN_BIT + (q - HIDDEN_BIT)) as nat) == q * pow2((field - 1) as nat),
{
    let mag = (field * HIDDEN_BIT + (q - HIDDEN_BIT)) as nat;
    lemma_fundamental_div_mod_converse(
        mag as int,
        HIDDEN_BIT as int,
        field as int,
        q - HIDDEN_BIT,
    );
}

impl Double {
    /// The double nearest to an unsigned integer.
    pub fn from_u64(n: u64) -> (r: Double)
        ensures
            r.finite(),
            !r.negative(),
            r.value() == nearest(n as nat) * one(),
            n < 2 * HIDDEN_BIT ==> r.value() == n * one(),
            r == double_of(n as int),
    {
        proof {
            lemma2_to64();
            lemma2_to64_rest();
            if n < 2 * HIDDEN_BIT {
                let m = n as nat;
                assert(excess_bits(m) == 0);
                assert(m / 1 == m && m % 1 == 0);
                assert(nearest(m) == m * 1);
            }
        }
        if n == 0 {
            proof {
                assert(mantissa(0) == 0);
                lemma_mul_basics(pow2(0) as int);
                lemma_mul_basics(one());
                lemma_double_of(Double { bits: 0 }, 0);
            }
            return Double { bits: 0 };
        }
        let mut q: u64 = n;
        let mut e: u64 = 0;
        proof {
            assert(n as nat / 1 == n);
        }
        while q >= 2 * HIDDEN_BIT
            invariant
                q == n as nat / pow2(e as nat),
                excess_bits(n as nat) == e + excess_bits(q as nat),
                0 < q,
                e <= 11,
                e > 0 ==> q >= HIDDEN_BIT,
            decreases q,
        {
            proof {
                lemma_pow2_pos(e as nat);
                lemma_pow2_unfold((e + 1) as nat);
                lemma_div_denominator(n as int, pow2(e as nat) as int, 2);
                lemma_mul_is_commutative(2, pow2(e as nat) as int);
                lemma2_to64();
                lemma2_to64_rest();
                lemma_fundamental_div_mod(n as int, pow2(e as nat) as int);
                lemma_mod_bound(n as int, pow2(e as nat) as int);
                if e == 11 {
                    assert(pow2(11) * q >= 0x800 * 0x20_0000_0000_0000) by (nonlinear_arith)
                        requires
                            pow2(11) == 0x800,
                            q >= 0x20_0000_0000_0000,
                    ;
                }
            }
            q = q / 2;
            e = e + 1;
        }
        let ghost p = pow2(e as nat) as int;
        proof {
            lemma_pow2_pos(e as nat);
            lemma_pow2_strictly_increases(e as nat, 53);
            vstd::bits::lemma_u64_shl_is_mul(1, e);
            lemma_fundamental_div_mod(n as int, p);
            lemma_mod_bound(n as int, p);
            lemma_mul_is_commutative(p, q as int);
        }
        let unit: u64 = 1u64 << e;
        let rest: u64 = n % unit;
        if rest > unit - rest || (rest == unit - rest && q % 2 == 1) {
            q = q + 1;
            if q == 2 * HIDDEN_BIT {
                q = HIDDEN_BIT;
                e = e + 1;
                proof {
                    lemma_pow2_unfold(e as nat);
                    assert(HIDDEN_BIT * pow2(e as nat) == (2 * HIDDEN_BIT) * p) by (nonlinear_arith)
                        requires
                            pow2(e as nat) == 2 * p,
                    ;
                }
            }
        }
        assert(q * pow2(e as nat) == nearest(n as nat));
        let mut shift: u64 = 0;
        let ghost q0 = q;
        while q < HIDDEN_BIT
            invariant
                0 < q0 <= q < 2 * HIDDEN_BIT,
                q == q0 * pow2(shift as nat),
                shift <= 52,
                shift > 0 ==> q0 < HIDDEN_BIT,
            decreases 2 * HIDDEN_BIT - q,
        {
            proof {
                lemma_pow2_unfold((shift + 1) as nat);
                assert(2 * q == q0 * pow2((shift + 1) as nat)) by (nonlinear_arith)
                    requires
                        q == q0 * pow2(shift as nat),
                        pow2((shift + 1) as nat) == 2 * pow2(shift as nat),
                ;
                lemma2_to64();
                lemma2_to64_rest();
                if shift == 52 {
                    assert(q >= HIDDEN_BIT) by (nonlinear_arith)
                        requires
                            q == q0 * pow2(52),
                            q0 >= 1,
                            pow2(52) == HIDDEN_BIT,
                    ;
                }
            }
            q = 2 * q;
            shift = shift + 1;
        }
        let field: u64 = 1075 + e - shift;
        proof {
            lemma_compose(q as nat, field as nat);
            let m = nearest(n as nat);
            if shift > 0 {
                // A short number was not cut.
                lemma_pow2_adds(shift as nat, (1074 - shift) as nat);
                assert(q * pow2((1074 - shift) as nat) == q0 * one()) by (nonlinear_arith)
                    requires
                        q == q0 * pow2(shift as nat),
                        one() == pow2(shift as nat) * pow2((1074 - shift) as nat),
                ;
                assert(e == 0);
                assert(pow2(0) == 1);
            } else {
                lemma_pow2_adds(e as nat, 1074);
                assert(pow2(0) == 1);
                assert(q * pow2((1074 + e) as nat) == m * one()) by (nonlinear_arith)
                    requires
                        q * pow2(e as nat) == m,
                        pow2((1074 + e) as nat) == pow2(e as nat) * one(),
                ;
            }
        }
        let r: Double = Double { bits: field * HIDDEN_BIT + (q - HIDDEN_BIT) };
        proof {
            lemma_double_of(r, n as int);
        }
        r
    }

    /// The double nearest to an integer.
    pub fn from_i64(n: i64) -> (r: Double)
        ensures
            r.finite(),
            n >= 0 ==> r.value() == nearest(n as nat) * one(),
            n < 0 ==> r.value() == -(nearest((-n) as nat) * one()),
            -(2 * HIDDEN_BIT) < n < 2 * HIDDEN_BIT ==> r.value() == n * one(),
            r == double_of(n as int),
    {
        if n >= 0 {
            Double::from_u64(n as u64)
        } else {
            let m: u64 = (-(n as i128)) as u64;
            let whole: Double = Double::from_u64(m);
            proof {
                lemma_mul_unary_negation(m as int, one());
                lemma_double_of(whole, m as int);
            }
            whole.negate()
        }
    }
}

/// The double with a value in units of 2^-1074, where there is one. Zero comes
/// without a sign.
pub open spec fn double_at(value: int) -> Double {
    choose|d: Double|
        !(#[trigger] d.nan()) && d.value() == value && d.negative() == (value < 0)
}

pub proof fn lemma_double_at(d: Double)
    requires
        !d.nan(),
        d.negative() == (d.value() < 0),
    ensures
        d == double_at(d.value()),
{
    lemma_value_determines(d, double_at(d.value()));
}

impl Double {
    /// A whole number times a power of two, where the product has no more digits
    /// than a mantissa.
    pub(crate) fn scaled(n: u64, scale: u64) -> (r: Double)
        requires
            n < 2 * HIDDEN_BIT,
            52 <= scale < 2046,
        ensures
            r.finite(),
            !r.negative(),
            r.value() == n * pow2(scale as nat),
    {
        if n == 0 {
            proof {
                assert(mantissa(0) == 0);
                lemma_mul_basics(pow2(0) as int);
                lemma_mul_basics(pow2(scale as nat) as int);
            }
            return Double { bits: 0 };
        }
        let mut q: u64 = n;
        let mut s: u64 = scale;
        proof {
            lemma2_to64();
            lemma2_to64_rest();
        }
        while q < HIDDEN_BIT
            invariant
                0 < q < 2 * HIDDEN_BIT,
                s <= scale <= s + 52,
                52 <= scale < 2046,
                q >= pow2((scale - s) as nat),
                q * pow2(s as nat) == n * pow2(scale as nat),
            decreases s,
        {
            proof {
                lemma2_to64_rest();
                if scale - s == 52 {
                    assert(pow2(52) == HIDDEN_BIT);
                }
                lemma_pow2_unfold(s as nat);
                lemma_pow2_unfold((scale - s + 1) as nat);
                assert((2 * q) * pow2((s - 1) as nat) == q * (2 * pow2((s - 1) as nat)))
                    by (nonlinear_arith);
            }
            q = 2 * q;
            s = s - 1;
        }
        proof {
            lemma_compose(q as nat, (s + 1) as nat);
        }
        Double { bits: (s + 1) * HIDDEN_BIT + (q - HIDDEN_BIT) }
    }
}

/// A whole number times a power of two is held by a double, where the product
/// has no more digits than a mantissa.
pub proof fn lemma_scaled_exists(n: nat, scale: nat) -> (d: Double)
    requires
        n < 2 * HIDDEN_BIT,
        52 <= scale < 2046,
    ensures
        d.finite(),
        !d.negative(),
        d.value() == n * pow2(scale),
{
    if n == 0 {
        assert(mantissa(0) == 0);
        lemma_mul_basics(pow2(0) as int);
        lemma_mul_basics(pow2(scale) as int);
        Double { bits: 0 }
    } else {
        lemma2_to64();
        lemma_doubled_exists(n, n, scale, scale)
    }
}

proof fn lemma_doubled_exists(n: nat, q: nat, s: nat, scale: nat) -> (d: Double)
    requires
        0 < q < 2 * HIDDEN_BIT,
        s <= scale <= s + 52,
        52 <= scale < 2046,
        q >= pow2((scale - s) as nat),
        q * pow2(s) == n * pow2(scale),
    ensures
        d.finite(),
        !d.negative(),
        d.value() == n * pow2(scale),
    decreases s,
{
    if q < HIDDEN_BIT {
        lemma2_to64_rest();
        if scale - s == 52 {
            assert(pow2(52) == HIDDEN_BIT);
        }
        lemma_pow2_unfold(s);
        lemma_pow2_unfold((scale - s + 1) as nat);
        assert((2 * q) * pow2((s - 1) as nat) == q * (2 * pow2((s - 1) as nat)))
            by (nonlinear_arith);
        lemma_doubled_exists(n, 2 * q, (s - 1) as nat, scale)
    } else {
        lemma_compose(q, s + 1);
        Double { bits: ((s + 1) * HIDDEN_BIT + (q - HIDDEN_BIT)) as u64 }
    }
}

/// The largest finite number.
pub const LARGEST: u64 = 0x7fef_ffff_ffff_ffff;

/// The most negative finite number.
pub const MOST_NEGATIVE: u64 = 0xffef_ffff_ffff_ffff;

impl Double {
    /// The lesser of two numbers; where one is a NaN, the other.
    pub open spec fn lesser(self, other: Double) -> Double {
        if other.nan() || self.below(other) {
            self
        } else {
            other
        }
    }

    pub fn min(&self, other: &Double) -> (r: Double)
        ensures
            r == self.lesser(*other),
    {
        if other.is_nan() || self.is_below(other) {
            *self
        } else {
            *other
        }
    }

    /// The greater of two numbers; where one is a NaN, the other.
    pub open spec fn greater(self, other: Double) -> Double {
        if other.nan() || other.below(self) {
            self
        } else {
            other
        }
    }

    pub fn max(&self, other: &Double) -> (r: Double)
        ensures
            r == self.greater(*other),
    {
        if other.is_nan() || other.is_below(self) {
            *self
        } else {
            *other
        }
    }

    /// Half of an odd number.
    pub fn half_of(n: u64) -> (r: Double)
        requires
            0 < n < HIDDEN_BIT,
        ensures
            r.finite(),
            2 * r.value() == n * one(),
    {
        let whole: Double = Double::from_u64(n);
        proof {
            lemma_pow2_pos(1074);
            // The number is at least one, so its exponent can be lowered.
            let mag = whole.mag();
            assert(n * one() >= one()) by (nonlinear_arith)
                requires
                    n >= 1,
                    one() > 0,
            ;
            if exponent_field(mag) < 1023 {
                lemma_below_power(mag);
            }
            let q = mantissa(mag);
            let f = exponent_field(mag);
            lemma_fundamental_div_mod(mag as int, HIDDEN_BIT as int);
            lemma_compose(q, (f - 1) as nat);
            assert(HIDDEN_BIT * f == f * HIDDEN_BIT) by (nonlinear_arith);
            assert((f - 1) * HIDDEN_BIT == f * HIDDEN_BIT - HIDDEN_BIT) by (nonlinear_arith);
            lemma_pow2_unfold((f - 1) as nat);
            assert(2 * (q * pow2((f - 2) as nat)) == q * pow2((f - 1) as nat)) by (nonlinear_arith)
                requires
                    pow2((f - 1) as nat) == 2 * pow2((f - 2) as nat),
            ;
        }
        Double { bits: whole.bits - HIDDEN_BIT }
    }
}

/// An integer is its own floor, ceiling and whole part.
pub proof fn law_integers_are_exact(d: Double, n: int)
    requires
        d.finite(),
        d.value() == n * one(),
    ensures
        d.floor() == n,
        d.ceil() == n,
        i32::MIN <= n <= i32::MAX ==> d.as_i32() == n,
{
    lemma_pow2_pos(1074);
    lemma_fundamental_div_mod_converse(d.value(), one(), n, 0);
    lemma_mul_unary_negation(n, one());
    lemma_fundamental_div_mod_converse(-d.value(), one(), -n, 0);
}

/// Two numbers of the same sign bit with the same value have the same bits.
pub proof fn lemma_value_determines(a: Double, b: Double)
    requires
        a.negative() == b.negative(),
        a.value() == b.value(),
    ensures
        a == b,
{
    lemma_magnitude_order(a.mag(), b.mag());
    lemma_magnitude_order(b.mag(), a.mag());
}

impl Double {
    /// The nearest integer; of two that are equally near the one further from
    /// zero.
    pub open spec fn rounded(self) -> int {
        if self.negative() {
            -((2 * -self.value() + one()) / (2 * one()))
        } else {
            (2 * self.value() + one()) / (2 * one())
        }
    }

    /// The nearest integer, held within the range of an `i32`; 0 for a NaN.
    pub fn round_i32(&self) -> (r: i32)
        ensures
            self.nan() ==> r == 0,
            !self.nan() ==> r == saturated_i32(self.rounded()),
    {
        if self.is_nan() {
            return 0;
        }
        let negative: bool = self.bits >= SIGN_BIT;
        let size: Double = if negative {
            self.negate()
        } else {
            *self
        };
        let whole: i32 = size.floor_i32();
        proof {
            lemma_pow2_pos(1074);
            let v = size.value();
            lemma_magnitude_order(size.mag(), 0);
            lemma_fundamental_div_mod(v, one());
            lemma_mod_bound(v, one());
            lemma_div_pos_is_pos(v, one());
            let f = v / one();
            let rest = v % one();
            // 2v + one = 2one * f + (2rest + one)
            assert(one() * f == f * one()) by (nonlinear_arith);
            assert(f * (2 * one()) == 2 * (f * one())) by (nonlinear_arith);
            assert((f + 1) * (2 * one()) == 2 * (f * one()) + 2 * one()) by (nonlinear_arith);
            assert((2 * f + 1) * one() == 2 * (f * one()) + one()) by (nonlinear_arith);
            if f >= 0x8000_0000 {
                assert(f * one() >= 0x8000_0000 * one()) by (nonlinear_arith)
                    requires
                        f >= 0x8000_0000,
                        one() > 0,
                ;
            }
            if 2 * rest < one() {
                lemma_fundamental_div_mod_converse(2 * v + one(), 2 * one(), f, 2 * rest + one());
            } else {
                lemma_fundamental_div_mod_converse(
                    2 * v + one(),
                    2 * one(),
                    f + 1,
                    2 * rest - one(),
                );
            }
        }
        if whole == i32::MAX {
            // Further up there is nothing that still fits, further down one
            // number that does.
            if negative {
                let half: Double = Double::half_of(0xffff_ffff);
                if half.is_at_most(&size) {
                    i32::MIN
                } else {
                    -i32::MAX
                }
            } else {
                i32::MAX
            }
        } else {
            let half: Double = Double::half_of(2 * (whole as u64) + 1);
            let up: i32 = if half.is_at_most(&size) {
                whole + 1
            } else {
                whole
            };
            if negative {
                -up
            } else {
                up
            }
        }
    }
}

/// What the patterns of sixty-four bits stand for: a sign, an exponent field and
/// a fraction. With a field of 0 the fraction counts units of 2^-1074; each
/// further field doubles the unit, from the second on, and adds 2^52 units to
/// the fraction. A field of 2047 is infinity without a fraction, else no number.
pub proof fn law_patterns_stand_for_numbers(negative: bool, field: u64, fraction: u64, d: Double)
    requires
        field < 2048,
        fraction < 0x10_0000_0000_0000,
        d.bits == (if negative {
            0x8000_0000_0000_0000int
        } else {
            0
        }) + field * 0x10_0000_0000_0000 + fraction,
    ensures
        d.negative() == negative,
        d.nan() == (field == 2047 && fraction > 0),
        d.finite() == (field < 2047),
        field == 0 ==> d.value() == if negative {
            -(fraction as int)
        } else {
            fraction as int
        },
        0 < field ==> d.value() == if negative {
            -((0x10_0000_0000_0000 + fraction) * pow2((field - 1) as nat))
        } else {
            (0x10_0000_0000_0000 + fraction) * pow2((field - 1) as nat)
        },
{
    let m = field * 0x10_0000_0000_0000 + fraction;
    assert(d.mag() == m);
    lemma_fundamental_div_mod_converse(
        m as int,
        0x10_0000_0000_0000,
        field as int,
        fraction as int,
    );
    assert(exponent_field(m as nat) == field);
    lemma2_to64();
    if field == 0 {
        assert(mantissa(m as nat) == fraction);
        assert(scale_of(m as nat) == 0);
        lemma_mul_basics(fraction as int);
    } else {
        assert(mantissa(m as nat) == 0x10_0000_0000_0000 + fraction);
        assert(scale_of(m as nat) == field - 1);
    }
}

/// The floor of a number is the integer at it or next below it, the ceiling the
/// one at it or next above it. The nearest integer is at most a half away, and
/// of two that are the one further from zero.
pub proof fn law_integers_next_to_a_number(d: Double)
    ensures
        d.floor() * one() <= d.value() < (d.floor() + 1) * one(),
        (d.ceil() - 1) * one() < d.value() <= d.ceil() * one(),
        -one() <= 2 * (d.rounded() * one() - d.value()) <= one(),
        d.value() > 0 ==> 2 * (d.rounded() * one() - d.value()) > -one(),
        d.value() < 0 ==> 2 * (d.rounded() * one() - d.value()) < one(),
{
    let (v, u) = (d.value(), one());
    lemma_pow2_pos(1074);
    lemma_magnitude_order(d.mag(), 0);
    lemma_around(v, u);
    lemma_around(-v, u);
    let (f, c) = (v / u, (-v) / u);
    assert((-c) * u == -(c * u) && (-c - 1) * u == -((c + 1) * u)) by (nonlinear_arith);
    let w = if d.negative() {
        -v
    } else {
        v
    };
    lemma_around(2 * w + u, 2 * u);
    let r = (2 * w + u) / (2 * u);
    assert(r * (2 * u) == 2 * (r * u) && (r + 1) * (2 * u) == 2 * (r * u) + 2 * u && (-r) * u == -(r
        * u)) by (nonlinear_arith);
}

proof fn lemma_around(v: int, u: int)
    requires
        u > 0,
    ensures
        (v / u) * u <= v < (v / u + 1) * u,
{
    lemma_fundamental_div_mod(v, u);
    lemma_mod_bound(v, u);
    let q = v / u;
    assert(q * u == u * q && (q + 1) * u == u * q + u) by (nonlinear_arith);
}

/// Of two numbers the lesser and the greater are these two, the one no greater
/// and the other no less than either. A number is held between two others, and
/// stays where it is there already.
pub proof fn law_least_greatest_and_clamped(a: Double, b: Double, low: Double, high: Double)
    requires
        !a.nan(),
        !b.nan(),
        !low.nan(),
        !high.nan(),
        low.value() <= high.value(),
    ensures
        a.lesser(b) == a || a.lesser(b) == b,
        a.lesser(b).value() <= a.value() && a.lesser(b).value() <= b.value(),
        a.greater(b) == a || a.greater(b) == b,
        a.greater(b).value() >= a.value() && a.greater(b).value() >= b.value(),
        low.value() <= a.value() <= high.value() ==> a.clamped(low, high) == a,
        a.value() < low.value() ==> a.clamped(low, high) == low,
        a.value() > high.value() ==> a.clamped(low, high) == high,
{
}

/// The negation of a number has its value with the other sign.
pub proof fn law_negation_turns_the_sign(d: Double)
    ensures
        d.negated().value() == -d.value(),
        d.negated().nan() == d.nan(),
        d.negated().negated() == d,
{
    lemma_magnitude_order(d.mag(), 0);
    assert(d.negated().mag() == d.mag());
}

/// Numbers are compared by their values, and what is no number compares with
/// nothing.
pub proof fn law_numbers_compare_by_value(a: Double, b: Double)
    ensures
        !a.nan() && !b.nan() ==> {
            &&& a.below(b) <==> a.value() < b.value()
            &&& a.at_most(b) <==> a.value() <= b.value()
            &&& a.same(b) <==> a.value() == b.value()
        },
        a.nan() || b.nan() ==> !a.below(b) && !a.at_most(b) && !a.same(b),
{
}

/// Two finite numbers are near each other exactly if they are less than 2^-52
/// apart, by at least 2^-106.
pub proof fn law_near_numbers_are_an_epsilon_apart(a: Double, b: Double)
    requires
        a.finite(),
        b.finite(),
    ensures
        a.near(b) <==> -(pow2(1022) - pow2(968)) < a.value() - b.value() < pow2(1022) - pow2(968),
{
    lemma_pow2_adds(54, 968);
    lemma2_to64_rest();
    let unit = fine_unit();
    assert(NEAR_BOUND * unit == pow2(54) * unit - unit) by (nonlinear_arith)
        requires
            NEAR_BOUND == pow2(54) - 1,
    ;
}

} // verus!
