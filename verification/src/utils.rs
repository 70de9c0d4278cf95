//! Color conversion and helper functions.

use crate::config::MapConfig;
use crate::double::{
    double_at, exponent_field, lemma_double_at, lemma_magnitude_order, lemma_scaled_exists,
    magnitude, mantissa, one, saturated_i32, scale_of, Double, HIDDEN_BIT, SIGN_BIT,
};
use crate::text::{chars_of, trim, trimmed_range};
use vstd::arithmetic::div_mod::*;
use vstd::arithmetic::mul::*;
use vstd::arithmetic::power2::*;
use vstd::prelude::*;

verus! {

/// The number of set bits of `val`.
pub open spec fn ones(val: nat) -> nat
    decreases val,
{
    if val == 0 {
        0
    } else {
        val % 2 + ones(val / 2)
    }
}

/// Population count (number of set bits) of a `u32`.
pub fn population(val: u32) -> (r: u32)
    ensures
        r == ones(val as nat),
        r <= 32,
{
    let mut rest: u32 = val;
    let mut count: u32 = 0;
    let mut seen: u32 = 0;
    let ghost mut bound: nat = 0x1_0000_0000;
    proof {
        lemma2_to64();
    }
    while rest > 0
        invariant
            count + ones(rest as nat) == ones(val as nat),
            count <= seen <= 32,
            bound > rest,
            bound == pow2((32 - seen) as nat),
        decreases rest,
    {
        proof {
            lemma_pow2(0);
            if seen < 32 {
                lemma_pow2_unfold((32 - seen) as nat);
            } else {
                lemma2_to64();
            }
            bound = bound / 2;
        }
        count = count + rest % 2;
        rest = rest / 2;
        seen = seen + 1;
    }
    count
}

// -- Colors ----------------------------------------------------------------

/// The value of a hexadecimal digit.
pub open spec fn hex_digit(c: char) -> Option<int> {
    if '0' <= c <= '9' {
        Some(c as int - '0' as int)
    } else if 'a' <= c <= 'f' {
        Some(c as int - 'a' as int + 10)
    } else if 'A' <= c <= 'F' {
        Some(c as int - 'A' as int + 10)
    } else {
        None
    }
}

/// The number that hexadecimal digits stand for; `None` where one of them is
/// no digit.
pub open spec fn hex_digits(s: Seq<char>) -> Option<int>
    decreases s.len(),
{
    if s.len() == 0 {
        Some(0)
    } else {
        match (hex_digits(s.drop_last()), hex_digit(s.last())) {
            (Some(high), Some(low)) => Some(16 * high + low),
            _ => None,
        }
    }
}

/// The color that stands for anything that is none.
pub open spec fn red() -> (int, int, int) {
    (255, 0, 0)
}

/// The color of a text: `#rgb` or `#rrggbb`, with white space around it; red
/// for anything else.
pub open spec fn parsed_color(text: Seq<char>) -> (int, int, int) {
    let color = trim(text);
    if color.len() == 0 || color.first() != '#' {
        red()
    } else {
        let hex = color.drop_first();
        match hex_digits(hex) {
            Some(v) => {
                if hex.len() == 3 {
                    (17 * (v / 256 % 16), 17 * (v / 16 % 16), 17 * (v % 16))
                } else if hex.len() == 6 {
                    (v / 65536 % 256, v / 256 % 256, v % 256)
                } else {
                    red()
                }
            },
            None => red(),
        }
    }
}

fn digit_value(c: char) -> (r: Option<u32>)
    ensures
        match r {
            Some(v) => hex_digit(c) == Some(v as int) && v < 16,
            None => hex_digit(c) is None,
        },
{
    if '0' <= c && c <= '9' {
        Some(c as u32 - '0' as u32)
    } else if 'a' <= c && c <= 'f' {
        Some(c as u32 - 'a' as u32 + 10)
    } else if 'A' <= c && c <= 'F' {
        Some(c as u32 - 'A' as u32 + 10)
    } else {
        None
    }
}

/// The number that up to six hexadecimal digits stand for.
fn parse_digits(chars: &Vec<char>, start: usize, end: usize) -> (r: Option<u32>)
    requires
        start <= end <= chars@.len(),
        end - start <= 6,
    ensures
        match r {
            Some(v) => hex_digits(chars@.subrange(start as int, end as int)) == Some(v as int),
            None => hex_digits(chars@.subrange(start as int, end as int)) is None,
        },
{
    let ghost digits = chars@.subrange(start as int, end as int);
    let mut value: u32 = 0;
    let mut bound: u32 = 1;
    let mut i: usize = start;
    assert(digits.take(0) =~= Seq::empty());
    while i < end
        invariant
            start <= i <= end,
            end <= chars@.len(),
            end - start <= 6,
            digits == chars@.subrange(start as int, end as int),
            hex_digits(digits.take(i - start)) == Some(value as int),
            value < bound,
            i - start == 0 ==> bound == 1,
            i - start == 1 ==> bound == 0x10,
            i - start == 2 ==> bound == 0x100,
            i - start == 3 ==> bound == 0x1000,
            i - start == 4 ==> bound == 0x1_0000,
            i - start == 5 ==> bound == 0x10_0000,
            i - start == 6 ==> bound == 0x100_0000,
        decreases end - i,
    {
        let ghost k = i - start;
        assert(digits.take(k + 1).drop_last() =~= digits.take(k));
        match digit_value(chars[i]) {
            Some(d) => {
                value = 16 * value + d;
                bound = 16 * bound;
            },
            None => {
                proof {
                    lemma_bad_digit_stays(digits, k + 1, digits.len() as int);
                    assert(digits.take(digits.len() as int) =~= digits);
                }
                return None;
            },
        }
        i = i + 1;
    }
    assert(digits.take(i - start) =~= digits);
    Some(value)
}

proof fn lemma_bad_digit_stays(s: Seq<char>, m: int, n: int)
    requires
        0 <= m <= n <= s.len(),
        hex_digits(s.take(m)) is None,
    ensures
        hex_digits(s.take(n)) is None,
    decreases n,
{
    if m < n {
        lemma_bad_digit_stays(s, m, n - 1);
        assert(s.take(n).drop_last() =~= s.take(n - 1));
    }
}

/// Parse a CSS hex color string (`#rgb` or `#rrggbb`) into `[r, g, b]`.
///
/// Returns `[255, 0, 0]` (red) for invalid input.
pub fn hex2rgb(color: &str) -> (r: [u8; 3])
    ensures
        (r[0] as int, r[1] as int, r[2] as int) == parsed_color(color@),
{
    let chars: Vec<char> = chars_of(color);
    let (start, end): (usize, usize) = trimmed_range(&chars);
    let ghost trimmed = trim(color@);
    if start == end || chars[start] != '#' {
        return [255, 0, 0];
    }
    let count: usize = end - start - 1;
    let ghost hex = trimmed.drop_first();
    assert(hex =~= chars@.subrange(start + 1, end as int));
    if count != 3 && count != 6 {
        return [255, 0, 0];
    }
    match parse_digits(&chars, start + 1, end) {
        Some(v) => {
            if count == 3 {
                [
                    (17 * (v / 256 % 16)) as u8,
                    (17 * (v / 16 % 16)) as u8,
                    (17 * (v % 16)) as u8,
                ]
            } else {
                [(v / 65536 % 256) as u8, (v / 256 % 256) as u8, (v % 256) as u8]
            }
        },
        None => [255, 0, 0],
    }
}

// -- Zoom ------------------------------------------------------------------

/// Clamp `num` to `[min, max]`.
pub fn clamp(num: Double, min: Double, max: Double) -> (r: Double)
    requires
        min.at_most(max),
    ensures
        r == num.clamped(min, max),
{
    num.clamp(&min, &max)
}

/// The integer tile zoom of a fractional one: the whole part below it, held
/// within `[0, tile_range]`.
pub open spec fn tile_zoom(zoom: Double, tile_range: u8) -> int {
    let z = if zoom.nan() {
        0
    } else {
        saturated_i32(zoom.floor())
    };
    if z < 0 {
        0
    } else if z > tile_range {
        tile_range as int
    } else {
        z
    }
}

/// Compute the integer tile zoom used for fetching tiles, clamped to `[0, tile_range]`.
///
/// The whole part is taken so that z2.x always fetches z2 tiles, z3.x fetches z3
/// tiles, etc. The tile data only changes at integer boundaries — within a given
/// integer band the renderer just scales the same tile polygons up. This keeps
/// coastline shapes stable across an entire zoom band and avoids mid-band data
/// cliffs.
///
/// **Terminology**:
/// - *display zoom* (`zoom`): the fractional zoom the user sees (e.g. 2.7).
/// - *tile zoom* (return value): the integer zoom used to address tiles (e.g. 2).
pub fn base_zoom(zoom: Double, config: &MapConfig) -> (r: u8)
    ensures
        r == tile_zoom(zoom, config@.tile_range),
{
    let z: i32 = zoom.floor_i32();
    if z < 0 {
        0
    } else if z > config.tile_range as i32 {
        config.tile_range
    } else {
        z as u8
    }
}

/// Within one whole zoom level the tile zoom does not change.
pub proof fn law_tile_zoom_is_stable_within_a_band(a: Double, b: Double, tile_range: u8)
    requires
        !a.nan(),
        !b.nan(),
        a.floor() == b.floor(),
    ensures
        tile_zoom(a, tile_range) == tile_zoom(b, tile_range),
{
}

// -- Coordinates -----------------------------------------------------------

/// 180 degrees east.
pub const EAST_LIMIT: u64 = 0x4066_8000_0000_0000;

/// 180 degrees west.
pub const WEST_LIMIT: u64 = 0xc066_8000_0000_0000;

/// The Web Mercator limit of latitude in the north: 85.0511 degrees.
pub const NORTH_LIMIT: u64 = 0x4055_4345_38ef_34d7;

/// The Web Mercator limit of latitude in the south: -85.0511 degrees.
pub const SOUTH_LIMIT: u64 = 0xc055_4345_38ef_34d7;

/// Half a turn around the world, in units of 2^-1074 degrees.
pub open spec fn half_turn() -> int {
    180 * one()
}

/// A longitude, in units of 2^-1074 degrees, wrapped around the world as often
/// as it takes to come within half a turn.
pub open spec fn wrapped_value(v: int) -> int {
    let turn = 2 * half_turn();
    if v > half_turn() {
        if v % turn > half_turn() {
            v % turn - turn
        } else {
            v % turn
        }
    } else if v < -half_turn() {
        if (-v) % turn > half_turn() {
            turn - (-v) % turn
        } else {
            -((-v) % turn)
        }
    } else {
        v
    }
}

/// A longitude wrapped to `[-180, 180]`. What is no finite number stays.
pub open spec fn wrapped_longitude(lon: Double) -> Double {
    if !lon.finite() || -half_turn() <= lon.value() <= half_turn() {
        lon
    } else {
        double_at(wrapped_value(lon.value()))
    }
}

/// A turn around the world in units of 2^-45 degrees: those of the last digit of
/// the numbers from 128 on. Wrapping needs no finer ones.
const TURN: u64 = 0x2d_0000_0000_0000;

/// The scale of 2^-45.
const TURN_SCALE: u64 = 1029;

proof fn lemma_limits()
    ensures
        one() > 0,
        TURN * pow2(TURN_SCALE as nat) == 2 * half_turn(),
        (Double { bits: EAST_LIMIT }).value() == half_turn(),
        (Double { bits: WEST_LIMIT }).value() == -half_turn(),
        !(Double { bits: EAST_LIMIT }).nan(),
        !(Double { bits: WEST_LIMIT }).nan(),
{
    lemma2_to64_rest();
    lemma_pow2_adds(45, 1029);
    lemma_pow2_pos(1074);
    let (p, q) = (pow2(45) as int, pow2(1029) as int);
    assert(one() == p * q);
    assert(TURN == 360 * p);
    assert((360 * p) * q == 360 * (p * q)) by (nonlinear_arith);
    let mag = (Double { bits: EAST_LIMIT }).mag();
    assert(mag == (Double { bits: WEST_LIMIT }).mag());
    assert(exponent_field(mag) == 1030);
    assert(mantissa(mag) == 180 * p);
    assert((180 * p) * q == 180 * (p * q)) by (nonlinear_arith);
}

/// What lies beyond half a turn is a whole multiple of 2^-45.
proof fn lemma_beyond(lon: Double)
    requires
        lon.finite(),
        !(-half_turn() <= lon.value() <= half_turn()),
    ensures
        exponent_field(lon.mag()) >= 1030,
        lon.mag() < SIGN_BIT,
        lon.value() == if lon.negative() {
            -(magnitude(lon.mag()) as int)
        } else {
            magnitude(lon.mag()) as int
        },
{
    lemma_limits();
    let limit = (Double { bits: EAST_LIMIT }).mag();
    lemma_magnitude_order(limit, lon.mag());
    assert(limit < lon.mag());
    assert(exponent_field(limit) == 1030);
    lemma_div_is_ordered(limit as int, lon.mag() as int, HIDDEN_BIT as int);
}

/// The remainder by a turn, in units of 2^-45.
proof fn lemma_turn_remainder(m: nat, shift: nat)
    ensures
        (m * pow2(TURN_SCALE as nat + shift)) as int % (2 * half_turn()) == ((m * pow2(shift))
            as int % TURN as int) * pow2(TURN_SCALE as nat),
{
    lemma_limits();
    lemma_pow2_adds(TURN_SCALE as nat, shift);
    lemma_pow2_pos(TURN_SCALE as nat);
    let (u, n, d) = (pow2(TURN_SCALE as nat) as int, (m * pow2(shift)) as int, TURN as int);
    assert(m * pow2(TURN_SCALE as nat + shift) == n * u) by (nonlinear_arith)
        requires
            pow2(TURN_SCALE as nat + shift) == u * pow2(shift),
            n == m * pow2(shift),
    ;
    lemma_fundamental_div_mod(n, d);
    lemma_mod_bound(n, d);
    let (q, r) = (n / d, n % d);
    assert(n * u == q * (d * u) + r * u) by (nonlinear_arith)
        requires
            n == d * q + r,
    ;
    assert(0 <= r * u < d * u) by (nonlinear_arith)
        requires
            0 <= r < d,
            u > 0,
    ;
    lemma_fundamental_div_mod_converse(n * u, d * u, q, r * u);
}

/// What wrapping makes of a remainder in units of 2^-45.
proof fn lemma_wrapped_remainder(v: int, rest: int, t: int, flip: bool)
    requires
        v > half_turn(),
        0 <= rest < TURN,
        v % (2 * half_turn()) == rest * pow2(TURN_SCALE as nat),
        flip == (2 * rest > TURN),
        t == if flip {
            TURN - rest
        } else {
            rest
        },
    ensures
        wrapped_value(v) == if flip {
            -(t * pow2(TURN_SCALE as nat))
        } else {
            t * pow2(TURN_SCALE as nat)
        },
        wrapped_value(-v) == -wrapped_value(v),
        0 <= t * pow2(TURN_SCALE as nat),
        flip ==> t * pow2(TURN_SCALE as nat) > 0,
{
    lemma_limits();
    lemma_pow2_pos(TURN_SCALE as nat);
    let u = pow2(TURN_SCALE as nat) as int;
    assert((2 * rest > TURN) == (2 * (rest * u) > TURN * u)) by (nonlinear_arith)
        requires
            u > 0,
    ;
    assert((TURN - rest) * u == TURN * u - rest * u) by (nonlinear_arith);
    assert(0 <= t * u) by (nonlinear_arith)
        requires
            0 <= t,
            u > 0,
    ;
    if flip {
        assert(0 < t * u) by (nonlinear_arith)
            requires
                0 < t,
                u > 0,
        ;
    }
}

fn wrap_longitude(lon: Double) -> (r: Double)
    ensures
        r == wrapped_longitude(lon),
{
    let west: Double = Double::from_bits(WEST_LIMIT);
    let east: Double = Double::from_bits(EAST_LIMIT);
    proof {
        lemma_limits();
    }
    if !lon.is_finite() || (west.is_at_most(&lon) && lon.is_at_most(&east)) {
        return lon;
    }
    let mag: u64 = lon.bits % SIGN_BIT;
    let field: u64 = mag / HIDDEN_BIT;
    let digits: u64 = HIDDEN_BIT + mag % HIDDEN_BIT;
    proof {
        lemma_beyond(lon);
        lemma2_to64();
        lemma_small_mod(digits as nat, TURN as nat);
        lemma_mul_basics(digits as int);
    }
    let mut rest: u64 = digits;
    let mut shift: u64 = 0;
    while shift < field - 1030
        invariant
            1030 <= field,
            shift <= field - 1030,
            rest < TURN,
            rest == (digits * pow2(shift as nat)) as int % TURN as int,
        decreases field - shift,
    {
        proof {
            lemma_pow2_unfold((shift + 1) as nat);
            let n = (digits * pow2(shift as nat)) as int;
            assert(digits * pow2((shift + 1) as nat) == 2 * n) by (nonlinear_arith)
                requires
                    pow2((shift + 1) as nat) == 2 * pow2(shift as nat),
                    n == digits * pow2(shift as nat),
            ;
            lemma_mul_mod_noop_right(2, n, TURN as int);
        }
        rest = 2 * rest % TURN;
        shift = shift + 1;
    }
    let flip: bool = 2 * rest > TURN;
    let t: u64 = if flip {
        TURN - rest
    } else {
        rest
    };
    let size: Double = Double::scaled(t, TURN_SCALE);
    let negative: bool = lon.bits >= SIGN_BIT;
    proof {
        lemma_turn_remainder(digits as nat, shift as nat);
        lemma_wrapped_remainder(
            magnitude(lon.mag()) as int,
            rest as int,
            t as int,
            flip,
        );
    }
    if t > 0 && flip != negative {
        let r: Double = size.negate();
        proof {
            lemma_pow2_pos(TURN_SCALE as nat);
            assert(t * pow2(TURN_SCALE as nat) > 0) by (nonlinear_arith)
                requires
                    t > 0,
                    pow2(TURN_SCALE as nat) > 0,
            ;
            lemma_double_at(r);
        }
        r
    } else {
        proof {
            lemma_mul_basics(pow2(TURN_SCALE as nat) as int);
            lemma_double_at(size);
        }
        size
    }
}

/// A wrapped longitude is within half a turn, whole turns away from where it
/// was, and wrapping it again changes nothing. What was within half a turn
/// stays as it is. Of the two names of the meridian that is half a turn away,
/// one from the east keeps the eastern, and one from the west the western.
pub proof fn law_longitudes_wrap(lon: Double)
    requires
        lon.finite(),
    ensures
        (Double { bits: WEST_LIMIT }).at_most(wrapped_longitude(lon)),
        wrapped_longitude(lon).at_most(Double { bits: EAST_LIMIT }),
        (wrapped_longitude(lon).value() - lon.value()) % (2 * half_turn()) == 0,
        wrapped_longitude(wrapped_longitude(lon)) == wrapped_longitude(lon),
        (Double { bits: WEST_LIMIT }).at_most(lon) && lon.at_most(Double { bits: EAST_LIMIT })
            ==> wrapped_longitude(lon) == lon,
        lon.value() > 180 * one() ==> wrapped_longitude(lon).value() > -180 * one(),
        lon.value() < -180 * one() ==> wrapped_longitude(lon).value() < 180 * one(),
{
    lemma_limits();
    lemma_small_mod(0, (2 * half_turn()) as nat);
    if !(-half_turn() <= lon.value() <= half_turn()) {
        lemma_beyond(lon);
        let m = mantissa(lon.mag());
        let shift = (scale_of(lon.mag()) - TURN_SCALE) as nat;
        lemma_turn_remainder(m, shift);
        let rest = (m * pow2(shift)) as int % TURN as int;
        lemma_mod_bound((m * pow2(shift)) as int, TURN as int);
        let flip = 2 * rest > TURN;
        let t = if flip {
            TURN - rest
        } else {
            rest
        };
        lemma_wrapped_remainder(magnitude(lon.mag()) as int, rest, t, flip);
        let size = lemma_scaled_exists(t as nat, TURN_SCALE as nat);
        let w = wrapped_value(lon.value());
        if w < 0 {
            lemma_magnitude_order(size.mag(), 0);
            let d = size.negated();
            assert(d.finite() && d.value() == w && d.negative());
            lemma_double_at(d);
        } else {
            assert(size.value() == w);
            lemma_double_at(size);
        }
        assert(wrapped_longitude(lon).value() == w);
        let v = lon.value();
        let turn = 2 * half_turn();
        let size_v = if v < 0 {
            -v
        } else {
            v
        };
        lemma_fundamental_div_mod(size_v, turn);
        let q = size_v / turn;
        let k = if v < 0 {
            if w == turn - size_v % turn {
                q + 1
            } else {
                q
            }
        } else if w == size_v % turn {
            -q
        } else {
            -q - 1
        };
        assert(w - v == k * turn) by (nonlinear_arith)
            requires
                size_v == turn * q + size_v % turn,
                v < 0 ==> size_v == -v && ((w == turn - size_v % turn && k == q + 1) || (w == -(
                size_v % turn) && k == q)),
                v >= 0 ==> size_v == v && ((w == size_v % turn && k == -q) || (w == size_v % turn
                    - turn && k == -q - 1)),
        ;
        lemma_mod_multiples_basic(k, turn);
        lemma_mod_bound(size_v, turn);
    }
}

/// A latitude clamped to the Web Mercator limits.
pub open spec fn clamped_latitude(lat: Double) -> Double {
    lat.clamped(Double { bits: SOUTH_LIMIT }, Double { bits: NORTH_LIMIT })
}

/// Normalize a lon/lat pair: wrap longitude to `[-180, 180]`, clamp latitude to
/// the Web Mercator limit of `[-85.0511, 85.0511]`. Returns the pair.
pub fn normalize(lon: Double, lat: Double) -> (r: (Double, Double))
    ensures
        r.0 == wrapped_longitude(lon),
        r.1 == clamped_latitude(lat),
        lon.finite() ==> (Double { bits: WEST_LIMIT }).at_most(r.0) && r.0.at_most(
            Double { bits: EAST_LIMIT },
        ) && (r.0.value() - lon.value()) % (2 * half_turn()) == 0,
{
    let south: Double = Double::from_bits(SOUTH_LIMIT);
    let north: Double = Double::from_bits(NORTH_LIMIT);
    proof {
        lemma_south_is_below_north();
        if lon.finite() {
            law_longitudes_wrap(lon);
        }
    }
    (wrap_longitude(lon), lat.clamp(&south, &north))
}

proof fn lemma_south_is_below_north()
    ensures
        (Double { bits: SOUTH_LIMIT }).at_most(Double { bits: NORTH_LIMIT }),
{
}

/// A normalized latitude is within the limits, and normalizing it again changes
/// nothing.
pub proof fn law_latitudes_stay_within_limits(lat: Double)
    requires
        !lat.nan(),
    ensures
        (Double { bits: SOUTH_LIMIT }).at_most(clamped_latitude(lat)),
        clamped_latitude(lat).at_most(Double { bits: NORTH_LIMIT }),
        clamped_latitude(clamped_latitude(lat)) == clamped_latitude(lat),
{
    lemma_south_is_below_north();
}

/// A color of three digits is the color of six in which each digit comes twice.
pub proof fn law_short_colors_double(a: char, b: char, c: char)
    requires
        hex_digit(a) is Some,
        hex_digit(b) is Some,
        hex_digit(c) is Some,
    ensures
        parsed_color(seq!['#', a, b, c]) == parsed_color(seq!['#', a, a, b, b, c, c]),
        parsed_color(seq!['#', a, b, c]) == (
            17 * hex_digit(a).unwrap(),
            17 * hex_digit(b).unwrap(),
            17 * hex_digit(c).unwrap(),
        ),
{
    let (short, long) = (seq!['#', a, b, c], seq!['#', a, a, b, b, c, c]);
    lemma_nothing_to_trim(short);
    lemma_nothing_to_trim(long);
    let none = Seq::<char>::empty();
    assert(short.drop_first() =~= none.push(a).push(b).push(c));
    assert(long.drop_first() =~= none.push(a).push(a).push(b).push(b).push(c).push(c));
    lemma_hex_push(none, a);
    lemma_hex_push(none.push(a), b);
    lemma_hex_push(none.push(a).push(b), c);
    lemma_hex_push(none.push(a), a);
    lemma_hex_push(none.push(a).push(a), b);
    lemma_hex_push(none.push(a).push(a).push(b), b);
    lemma_hex_push(none.push(a).push(a).push(b).push(b), c);
    lemma_hex_push(none.push(a).push(a).push(b).push(b).push(c), c);
    let (x, y, z) = (hex_digit(a).unwrap(), hex_digit(b).unwrap(), hex_digit(c).unwrap());
    lemma_color_digits(x, y, z);
}

proof fn lemma_hex_push(s: Seq<char>, c: char)
    requires
        hex_digits(s) is Some,
        hex_digit(c) is Some,
    ensures
        hex_digits(s.push(c)) == Some(16 * hex_digits(s).unwrap() + hex_digit(c).unwrap()),
{
    assert(s.push(c).drop_last() =~= s);
}

proof fn lemma_color_digits(x: int, y: int, z: int)
    requires
        0 <= x < 16,
        0 <= y < 16,
        0 <= z < 16,
    ensures
        ({
            let v = 16 * (16 * x + y) + z;
            v / 256 % 16 == x && v / 16 % 16 == y && v % 16 == z
        }),
        ({
            let w = 16 * (16 * (16 * (16 * (16 * x + x) + y) + y) + z) + z;
            w / 65536 % 256 == 17 * x && w / 256 % 256 == 17 * y && w % 256 == 17 * z
        }),
{
    let v = 16 * (16 * x + y) + z;
    lemma_fundamental_div_mod_converse(v, 16, 16 * x + y, z);
    lemma_fundamental_div_mod_converse(v, 256, x, 16 * y + z);
    lemma_fundamental_div_mod_converse(16 * x + y, 16, x, y);
    lemma_small_mod(x as nat, 16);
    let (a, b, c) = (17 * x, 17 * y, 17 * z);
    let w = 16 * (16 * (16 * (16 * (16 * x + x) + y) + y) + z) + z;
    assert(w == 65536 * a + 256 * b + c);
    lemma_fundamental_div_mod_converse(w, 256, 256 * a + b, c);
    lemma_fundamental_div_mod_converse(w, 65536, a, 256 * b + c);
    lemma_fundamental_div_mod_converse(256 * a + b, 256, a, b);
    lemma_small_mod(a as nat, 256);
}

proof fn lemma_nothing_to_trim(s: Seq<char>)
    requires
        s.len() > 0,
        !crate::text::is_space(s.first()),
        !crate::text::is_space(s.last()),
    ensures
        trim(s) == s,
{
}

/// Whether a character is the hexadecimal digit of a value.
pub open spec fn is_hex(c: char, value: int) -> bool {
    ||| '0' <= c <= '9' && value == c as int - 48
    ||| 'a' <= c <= 'f' && value == c as int - 87
    ||| 'A' <= c <= 'F' && value == c as int - 55
}

/// A color of six digits has its red in the first two, its green in the next two
/// and its blue in the last two, each the sixteens first.
pub proof fn law_colors_are_read_byte_by_byte(
    digits: Seq<char>,
    values: Seq<int>,
)
    requires
        digits.len() == 6,
        values.len() == 6,
        forall|i: int| 0 <= i < 6 ==> is_hex(#[trigger] digits[i], values[i]),
    ensures
        parsed_color(seq!['#'] + digits) == (
            16 * values[0] + values[1],
            16 * values[2] + values[3],
            16 * values[4] + values[5],
        ),
{
    let text = seq!['#'] + digits;
    assert(is_hex(digits[0], values[0]) && is_hex(digits[1], values[1]) && is_hex(
        digits[2],
        values[2],
    ) && is_hex(digits[3], values[3]) && is_hex(digits[4], values[4]) && is_hex(
        digits[5],
        values[5],
    ));
    assert(text.last() == digits[5]);
    lemma_nothing_to_trim(text);
    assert(text.drop_first() =~= digits);
    let none = Seq::<char>::empty();
    let d = digits;
    assert(digits =~= none.push(d[0]).push(d[1]).push(d[2]).push(d[3]).push(d[4]).push(d[5]));
    lemma_hex_push(none, d[0]);
    lemma_hex_push(none.push(d[0]), d[1]);
    lemma_hex_push(none.push(d[0]).push(d[1]), d[2]);
    lemma_hex_push(none.push(d[0]).push(d[1]).push(d[2]), d[3]);
    lemma_hex_push(none.push(d[0]).push(d[1]).push(d[2]).push(d[3]), d[4]);
    lemma_hex_push(none.push(d[0]).push(d[1]).push(d[2]).push(d[3]).push(d[4]), d[5]);
    let (a, b, c) = (
        16 * values[0] + values[1],
        16 * values[2] + values[3],
        16 * values[4] + values[5],
    );
    let w = 65536 * a + 256 * b + c;
    assert(hex_digits(digits) == Some(w));
    lemma_fundamental_div_mod_converse(w, 256, 256 * a + b, c);
    lemma_fundamental_div_mod_converse(w, 65536, a, 256 * b + c);
    lemma_fundamental_div_mod_converse(256 * a + b, 256, a, b);
    lemma_small_mod(a as nat, 256);
}

/// What is no color is red: a text without its number sign, with another number
/// of digits, or with anything that is no digit.
pub proof fn law_what_is_no_color_is_red(text: Seq<char>, i: int)
    requires
        text.len() > 0,
        !crate::text::is_space(text.first()),
        !crate::text::is_space(text.last()),
    ensures
        text[0] != '#' ==> parsed_color(text) == (255int, 0int, 0int),
        text.len() != 4 && text.len() != 7 ==> parsed_color(text) == (255int, 0int, 0int),
        0 < i < text.len() && (forall|v: int| !#[trigger] is_hex(text[i], v)) ==> parsed_color(text)
            == (255int, 0int, 0int),
{
    lemma_nothing_to_trim(text);
    if 0 < i < text.len() && (forall|v: int| !#[trigger] is_hex(text[i], v)) {
        let hex = text.drop_first();
        assert(!is_hex(text[i], text[i] as int - 48));
        assert(!is_hex(text[i], text[i] as int - 87));
        assert(!is_hex(text[i], text[i] as int - 55));
        assert(hex.take(i).last() == text[i]);
        lemma_bad_digit_stays(hex, i, hex.len() as int);
        assert(hex.take(hex.len() as int) =~= hex);
    }
}

/// A number has one set bit more than what is left of it without its highest
/// bit, and none has as few as zero.
pub proof fn law_bits_are_counted_one_by_one(k: nat, rest: nat)
    requires
        rest < pow2(k),
    ensures
        ones(0) == 0,
        ones(pow2(k) + rest) == 1 + ones(rest),
    decreases k,
{
    lemma2_to64();
    if k == 0 {
        assert(ones(1) == 1 + ones(0));
    } else {
        lemma_pow2_unfold(k);
        lemma_pow2_pos((k - 1) as nat);
        let n = pow2(k) + rest;
        let h = pow2((k - 1) as nat);
        law_bits_are_counted_one_by_one((k - 1) as nat, rest / 2);
        assert(n / 2 == h + rest / 2 && n % 2 == rest % 2);
        if rest == 0 {
            assert(ones(n) == n % 2 + ones(n / 2));
        } else {
            assert(ones(n) == n % 2 + ones(n / 2));
            assert(ones(rest) == rest % 2 + ones(rest / 2));
        }
    }
}

/// The tile zoom of a zoom level is the whole level at it or just below it, held
/// between 0 and the last level that has tiles.
pub proof fn law_tile_zoom_is_the_level_below(zoom: Double, tile_range: u8)
    requires
        !zoom.nan(),
    ensures
        0 <= tile_zoom(zoom, tile_range) <= tile_range,
        zoom.value() >= 0 && zoom.value() < tile_range * one() ==> tile_zoom(zoom, tile_range)
            * one() <= zoom.value() < (tile_zoom(zoom, tile_range) + 1) * one(),
        zoom.value() < 0 ==> tile_zoom(zoom, tile_range) == 0,
        zoom.value() >= tile_range * one() ==> tile_zoom(zoom, tile_range) == tile_range,
{
    let (v, u) = (zoom.value(), one());
    lemma_pow2_pos(1074);
    lemma_fundamental_div_mod(v, u);
    lemma_mod_bound(v, u);
    let z = v / u;
    assert(u * z == z * u) by (nonlinear_arith);
    assert((z + 1) * u == z * u + u) by (nonlinear_arith);
    assert(z * u <= v < (z + 1) * u);
    let t = tile_range as int;
    if v < 0 {
        assert(z < 0) by (nonlinear_arith)
            requires
                z * u <= v,
                v < 0,
                u > 0,
        ;
    } else {
        assert(z >= 0) by (nonlinear_arith)
            requires
                v < (z + 1) * u,
                v >= 0,
                u > 0,
        ;
    }
    if v < t * u {
        assert(z < t) by (nonlinear_arith)
            requires
                z * u <= v,
                v < t * u,
                u > 0,
        ;
    } else {
        assert(z >= t) by (nonlinear_arith)
            requires
                v < (z + 1) * u,
                v >= t * u,
                u > 0,
        ;
    }
}

/// The limits of latitude are 85.0511 degrees to the north and to the south, up
/// to less than a billionth of a ten-thousandth; those of longitude 180 degrees
/// to the east and to the west.
pub proof fn law_limits_of_the_map()
    ensures
        (Double { bits: NORTH_LIMIT }).value() == -(Double { bits: SOUTH_LIMIT }).value(),
        -one() < 0x4000_0000 * (10000 * (Double { bits: NORTH_LIMIT }).value() - 850511 * one())
            < one(),
        (Double { bits: EAST_LIMIT }).value() == 180 * one(),
        (Double { bits: WEST_LIMIT }).value() == -180 * one(),
{
    lemma_limits();
    let north = Double { bits: NORTH_LIMIT };
    let south = Double { bits: SOUTH_LIMIT };
    assert(north.mag() == NORTH_LIMIT && south.mag() == NORTH_LIMIT);
    assert(exponent_field(NORTH_LIMIT as nat) == 1029);
    assert(mantissa(NORTH_LIMIT as nat) == 0x15_4345_38ef_34d7);
    assert(scale_of(NORTH_LIMIT as nat) == 1028);
    let u = pow2(1028) as int;
    lemma_pow2_pos(1028);
    lemma_pow2_adds(46, 1028);
    lemma2_to64_rest();
    assert(pow2(46) == 0x4000_0000_0000);
    let v = north.value();
    assert(v == 0x15_4345_38ef_34d7 * u);
    assert(one() == 0x4000_0000_0000 * u);
    assert(10000 * v - 850511 * one() == (10000 * 0x15_4345_38ef_34d7int - 850511
        * 0x4000_0000_0000int) * u) by (nonlinear_arith)
        requires
            v == 0x15_4345_38ef_34d7 * u,
            one() == 0x4000_0000_0000 * u,
    ;
}

/// A latitude within the limits of the map stays, one beyond them becomes the
/// limit that it is beyond.
pub proof fn law_latitudes_beyond_a_limit_stop_there(lat: Double)
    requires
        !lat.nan(),
    ensures
        ({
            let north = Double { bits: NORTH_LIMIT };
            &&& -north.value() <= lat.value() <= north.value() ==> clamped_latitude(lat) == lat
            &&& lat.value() > north.value() ==> clamped_latitude(lat).value() == north.value()
            &&& lat.value() < -north.value() ==> clamped_latitude(lat).value() == -north.value()
        }),
{
    law_limits_of_the_map();
    lemma_south_is_below_north();
}

} // verus!
