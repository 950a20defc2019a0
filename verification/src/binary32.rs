//! Readings as 32-bit floating-point bit patterns.
//!
//! GameController reports every input as an IEEE 754 `binary32` number. This
//! module works on the bits of such a number (`f32::to_bits`), so that the two
//! questions asked of a reading, "is it more than one half?" and "what is it in
//! axis units?", have answers that can be stated and proved over integers.
//!
//! The magnitude of a pattern is counted in units of 2^-150, in which every
//! finite `binary32` magnitude is a whole number.

use vstd::arithmetic::div_mod::*;
use vstd::arithmetic::power2::*;
use vstd::prelude::*;

verus! {

/// Full scale for an axis value: a reading of 1.0 is this many counts.
pub const AXIS_MAX: i32 = 32767;

/// Whether the sign bit of the pattern is set.
pub open spec fn is_negative(bits: u32) -> bool {
    bits >= 0x8000_0000
}

/// The pattern with its sign bit cleared.
pub open spec fn unsigned_part(bits: u32) -> int {
    if is_negative(bits) {
        bits - 0x8000_0000
    } else {
        bits as int
    }
}

/// The eight exponent bits.
pub open spec fn exponent_field(bits: u32) -> int {
    unsigned_part(bits) / 0x80_0000
}

/// The 23 fraction bits.
pub open spec fn fraction_field(bits: u32) -> int {
    unsigned_part(bits) % 0x80_0000
}

/// Whether the pattern is not a number.
pub open spec fn is_nan(bits: u32) -> bool {
    exponent_field(bits) == 255 && fraction_field(bits) != 0
}

/// The significand as a whole number, hidden bit included.
pub open spec fn significand(bits: u32) -> nat {
    if exponent_field(bits) == 0 {
        fraction_field(bits) as nat
    } else {
        (fraction_field(bits) + 0x80_0000) as nat
    }
}

/// The power of two that the significand is multiplied with, in units of 2^-150.
pub open spec fn scale(bits: u32) -> nat {
    if exponent_field(bits) == 0 {
        1
    } else {
        exponent_field(bits) as nat
    }
}

/// The absolute value of the number, in units of 2^-150. An infinity counts as
/// 2^128, which is beyond every finite magnitude.
pub open spec fn magnitude(bits: u32) -> nat {
    significand(bits) * pow2(scale(bits))
}

/// The number one, in units of 2^-150.
pub open spec fn one() -> nat {
    pow2(150)
}

/// Whether the number is more than one half, as `>` on floats has it: no NaN is.
pub open spec fn more_than_half(bits: u32) -> bool {
    &&& !is_negative(bits)
    &&& !is_nan(bits)
    &&& 2 * magnitude(bits) > one()
}

/// The distance between neighbouring 24-bit significands around `x`.
pub open spec fn spacing(x: nat) -> nat
    decreases x,
{
    if x < 0x100_0000 {
        1
    } else {
        2 * spacing(x / 2)
    }
}

/// `x` rounded to 24 significant bits: to the nearest, and to the even one of
/// two that are equally near.
pub open spec fn nearest(x: nat) -> nat {
    let unit = spacing(x);
    let below = x / unit;
    let rest = x % unit;
    if 2 * rest < unit || (2 * rest == unit && below % 2 == 0) {
        below * unit
    } else {
        (below + 1) * unit
    }
}

/// The absolute value of the reading in whole axis counts: the product with
/// [`AXIS_MAX`], rounded as a float product is, with its fraction dropped.
/// (Products below 2^-126 are rounded more coarsely by hardware; they have no
/// whole counts either way.)
pub open spec fn counts(bits: u32) -> nat {
    nearest(magnitude(bits) * AXIS_MAX as nat) / one()
}

/// The reading in axis counts, with its sign. Out-of-range products saturate
/// and a NaN is zero, as a float-to-integer cast has it.
pub open spec fn in_counts(bits: u32) -> int {
    if is_nan(bits) {
        0
    } else if is_negative(bits) {
        if counts(bits) > 0x8000_0000 {
            i32::MIN as int
        } else {
            -counts(bits)
        }
    } else {
        if counts(bits) > i32::MAX {
            i32::MAX as int
        } else {
            counts(bits) as int
        }
    }
}

proof fn lemma_spacing_bounds(x: nat)
    ensures
        spacing(x) >= 1,
        x < 0x100_0000 ==> spacing(x) == 1,
        x >= 0x100_0000 ==> spacing(x) * 0x80_0000 <= x,
    decreases x,
{
    if x >= 0x100_0000 {
        lemma_spacing_bounds(x / 2);
    }
}

/// Rounding moves a number by at most half the spacing around it.
proof fn lemma_nearest_bounds(x: nat)
    ensures
        2 * nearest(x) <= 2 * x + spacing(x),
        2 * nearest(x) + spacing(x) >= 2 * x,
        x < 0x100_0000 ==> nearest(x) == x,
{
    lemma_spacing_bounds(x);
    let unit = spacing(x);
    lemma_fundamental_div_mod(x as int, unit as int);
    lemma_mod_bound(x as int, unit as int);
    let below = x / unit;
    assert(below * unit == unit * below) by (nonlinear_arith);
    assert((below + 1) * unit == below * unit + unit) by (nonlinear_arith);
}

proof fn lemma_nearest_doubles(x: nat)
    ensures
        nearest(2 * x) == 2 * nearest(x),
{
    if x < 0x80_0000 {
        lemma_nearest_bounds(x);
        lemma_nearest_bounds(2 * x);
    } else {
        lemma_spacing_bounds(x);
        let unit = spacing(x);
        assert((2 * x) / 2 == x);
        assert(spacing(2 * x) == 2 * unit);
        lemma_div_multiples_vanish_quotient(2, x as int, unit as int);
        assert((2 * x) / (2 * unit) == x / unit);
        lemma_fundamental_div_mod(x as int, unit as int);
        lemma_fundamental_div_mod((2 * x) as int, (2 * unit) as int);
        let below = x / unit;
        assert((2 * unit) * below == 2 * (unit * below)) by (nonlinear_arith);
        assert((2 * x) % (2 * unit) == 2 * (x % unit));
        assert(below * (2 * unit) == 2 * (below * unit)) by (nonlinear_arith);
        assert((below + 1) * (2 * unit) == 2 * ((below + 1) * unit)) by (nonlinear_arith);
    }
}

/// Rounding to a number of significant bits commutes with powers of two.
proof fn lemma_nearest_scales(x: nat, e: nat)
    ensures
        nearest(x * pow2(e)) == nearest(x) * pow2(e),
    decreases e,
{
    if e == 0 {
        lemma2_to64();
        assert(x * 1 == x);
        assert(nearest(x) * 1 == nearest(x));
    } else {
        let d = (e - 1) as nat;
        lemma_pow2_unfold(e);
        lemma_nearest_scales(x, d);
        let p = pow2(d);
        assert(x * (2 * p) == 2 * (x * p)) by (nonlinear_arith);
        lemma_nearest_doubles(x * p);
        let n = nearest(x);
        assert(n * (2 * p) == 2 * (n * p)) by (nonlinear_arith);
    }
}

proof fn lemma_fields(bits: u32)
    ensures
        0 <= unsigned_part(bits) < 0x8000_0000,
        0 <= exponent_field(bits) <= 255,
        0 <= fraction_field(bits) < 0x80_0000,
        significand(bits) < 0x100_0000,
        exponent_field(bits) != 0 ==> significand(bits) >= 0x80_0000,
        unsigned_part(bits) == 0x80_0000 * exponent_field(bits) + fraction_field(bits),
        1 <= scale(bits) <= 255,
{
}

/// The patterns of the numbers above one half are those behind the pattern of one half,
/// up to that of infinity.
pub proof fn law_half_in_bits(bits: u32)
    ensures
        more_than_half(bits) <==> 0x3F00_0000 < bits <= 0x7F80_0000,
{
    lemma_fields(bits);
    lemma2_to64();
    let e = scale(bits);
    let m = significand(bits);
    let p = pow2(e);
    lemma_pow2_adds(1, 149);
    lemma_pow2_adds(23, 126);
    if exponent_field(bits) > 126 {
        lemma_pow2_strictly_increases(126, e);
        assert(m * p > pow2(23) * pow2(126)) by (nonlinear_arith)
            requires
                m >= pow2(23) > 0,
                p > pow2(126),
        ;
    } else if exponent_field(bits) == 126 {
        lemma_pow2_pos(126);
        assert(m > pow2(23) ==> m * p > pow2(23) * p) by (nonlinear_arith)
            requires
                p > 0,
        ;
    } else {
        lemma_pow2_adds(24, 125);
        lemma_pow2_pos(125);
        if e < 125 {
            lemma_pow2_strictly_increases(e, 125);
        }
        assert(m * p < pow2(24) * pow2(125)) by (nonlinear_arith)
            requires
                m < pow2(24),
                p <= pow2(125),
                pow2(125) > 0,
        ;
    }
}

/// Whether a button's analog value counts as pressed: above half scale. At exactly
/// half scale it does not.
///
/// The half-scale point, and not "anything above zero", because real pads
/// report small non-zero values at rest on the triggers.
pub fn pressed(bits: u32) -> (yes: bool)
    ensures
        yes == more_than_half(bits),
        yes == (0x3F00_0000 < bits <= 0x7F80_0000),
{
    proof {
        law_half_in_bits(bits);
    }
    0x3F00_0000 < bits && bits <= 0x7F80_0000
}

/// [`spacing`] of a 64-bit number.
fn spacing_of(x: u64) -> (unit: u64)
    ensures
        unit == spacing(x as nat),
    decreases x,
{
    if x < 0x100_0000 {
        1
    } else {
        let half: u64 = spacing_of(x / 2);
        proof {
            lemma_spacing_bounds((x / 2) as nat);
        }
        2 * half
    }
}

/// [`nearest`] of a product of a significand and a 15-bit factor.
fn round_to_24_bits(x: u64) -> (rounded: u64)
    requires
        x < 0x80_0000_0000,
    ensures
        rounded == nearest(x as nat),
{
    let unit: u64 = spacing_of(x);
    proof {
        lemma_spacing_bounds(x as nat);
        lemma_fundamental_div_mod(x as int, unit as int);
        lemma_mod_bound(x as int, unit as int);
    }
    let below: u64 = x / unit;
    let rest: u64 = x % unit;
    proof {
        assert(below * unit == unit * below) by (nonlinear_arith);
        assert((below + 1) * unit == below * unit + unit) by (nonlinear_arith);
    }
    if 2 * rest < unit || (2 * rest == unit && below % 2 == 0) {
        below * unit
    } else {
        (below + 1) * unit
    }
}

/// The counts of a pattern come from its significand alone, as the exponent of a float
/// has no part in rounding.
pub proof fn law_counts_of_significand(bits: u32)
    ensures
        scale(bits) <= 150 ==> counts(bits) == nearest(significand(bits) * AXIS_MAX as nat)
            / pow2((150 - scale(bits)) as nat),
        scale(bits) > 150 ==> counts(bits) >= nearest(significand(bits) * AXIS_MAX as nat),
{
    let m = significand(bits);
    let e = scale(bits);
    let p = pow2(e);
    let product = m * AXIS_MAX as nat;
    let rounded = nearest(product);
    assert((m * p) * 32767 == (m * 32767) * p) by (nonlinear_arith);
    lemma_nearest_scales(product, e);
    lemma_pow2_pos(e);
    if e <= 150 {
        let n = (150 - e) as nat;
        lemma_pow2_adds(n, e);
        lemma_pow2_pos(n);
        lemma_div_multiples_vanish_quotient(p as int, rounded as int, pow2(n) as int);
        assert(p * rounded == rounded * p) by (nonlinear_arith);
        assert(p * pow2(n) == pow2(n) * p) by (nonlinear_arith);
    } else {
        lemma_pow2_strictly_increases(150, e);
        lemma_pow2_pos(150);
        let q = one();
        assert(rounded * p >= rounded * q) by (nonlinear_arith)
            requires
                p >= q,
        ;
        lemma_div_is_ordered((rounded * q) as int, (rounded * p) as int, q as int);
        lemma_div_by_multiple(rounded as int, q as int);
    }
}

/// A stick or trigger reading, in the units that [`AXIS_MAX`] defines.
pub fn scaled(bits: u32) -> (value: i32)
    ensures
        value == in_counts(bits),
{
    let negative: bool = bits >= 0x8000_0000;
    let unsigned: u32 = if negative {
        bits - 0x8000_0000
    } else {
        bits
    };
    let exponent: u32 = unsigned / 0x80_0000;
    let fraction: u32 = unsigned % 0x80_0000;
    if exponent == 255 && fraction != 0 {
        return 0;
    }
    let (significand, scale): (u64, u32) = if exponent == 0 {
        (fraction as u64, 1)
    } else {
        (fraction as u64 + 0x80_0000, exponent)
    };
    proof {
        lemma_fields(bits);
        law_counts_of_significand(bits);
        lemma_nearest_bounds(significand as nat * AXIS_MAX as nat);
        lemma_spacing_bounds(significand as nat * AXIS_MAX as nat);
    }
    let rounded: u64 = round_to_24_bits(significand * 32767);
    let whole: u64 = if scale >= 150 {
        proof {
            lemma2_to64();
            assert(rounded / 1 == rounded);
        }
        rounded
    } else if scale <= 110 {
        proof {
            let n = (150 - scale) as nat;
            lemma2_to64_rest();
            if n > 40 {
                lemma_pow2_strictly_increases(40, n);
            }
            lemma_basic_div(rounded as int, pow2(n) as int);
        }
        0
    } else {
        let n: u64 = 150 - scale as u64;
        proof {
            vstd::bits::lemma_u64_shr_is_div(rounded, n);
        }
        rounded >> n
    };
    if negative {
        if whole > 0x8000_0000 {
            i32::MIN
        } else {
            (-(whole as i64)) as i32
        }
    } else {
        if whole > 0x7FFF_FFFF {
            i32::MAX
        } else {
            whole as i32
        }
    }
}

/// A reading between -1 and 1 stays within full scale, on the side of zero that
/// its sign says.
pub proof fn law_full_scale(bits: u32)
    requires
        !is_nan(bits),
        magnitude(bits) <= one(),
    ensures
        -AXIS_MAX <= in_counts(bits) <= AXIS_MAX,
        is_negative(bits) ==> in_counts(bits) <= 0,
        !is_negative(bits) ==> in_counts(bits) >= 0,
{
    let x = magnitude(bits) * AXIS_MAX as nat;
    lemma_pow2_pos(150);
    lemma_nearest_bounds(x);
    lemma_spacing_bounds(x);
    lemma2_to64();
    lemma_pow2_adds(64, 86);
    lemma_pow2_pos(86);
    assert(one() >= 0x1_0000_0000_0000_0000) by {
        let p = pow2(86);
        assert(0x1_0000_0000_0000_0000 * p >= 0x1_0000_0000_0000_0000) by (nonlinear_arith)
            requires
                p >= 1,
        ;
    }
    assert(x == magnitude(bits) * 32767);
    assert(nearest(x) < 32768 * one());
    let q = one() as int;
    let n = nearest(x) as int;
    assert(n / q < 32768) by (nonlinear_arith)
        requires
            q > 0,
            0 <= n < 32768 * q,
    ;
}

/// Zero, of either sign, is zero counts.
pub proof fn law_zero(bits: u32)
    requires
        magnitude(bits) == 0,
    ensures
        in_counts(bits) == 0,
{
    lemma_nearest_bounds(0);
    lemma_pow2_pos(150);
    lemma_div_basics(one() as int);
}

/// Scaling is symmetric: two patterns that differ in sign alone give opposite
/// values, up to the one value of the 32-bit range that has no opposite.
pub proof fn law_scaling_is_odd(positive: u32, negative: u32)
    requires
        positive < 0x8000_0000,
        negative == positive + 0x8000_0000,
    ensures
        in_counts(negative) == -in_counts(positive) || (in_counts(negative) == i32::MIN
            && in_counts(positive) == i32::MAX),
{
    assert(unsigned_part(positive) == unsigned_part(negative));
}

/// What a pattern stands for. The patterns without a sign count the magnitudes up from
/// zero: the next pattern is one step further, and the step doubles every 2^23 patterns.
/// Setting the sign bit leaves the magnitude as it is.
pub proof fn law_patterns_count_up(bits: u32)
    requires
        bits < 0x7F80_0000,
    ensures
        magnitude(0) == 0,
        magnitude((bits + 1) as u32) == magnitude(bits) + pow2(
            if bits < 0x80_0000 {
                1
            } else {
                (bits / 0x80_0000) as nat
            },
        ),
        magnitude((bits + 0x8000_0000) as u32) == magnitude(bits),
        magnitude(0x3F80_0000) == one(),
        one() == pow2(150),
{
    let next = (bits + 1) as u32;
    lemma_fields(bits);
    lemma_fields(next);
    let p = pow2(scale(bits));
    let m = significand(bits);
    lemma2_to64();
    lemma_pow2_adds(23, 127);
    assert(scale(0x3F80_0000) == 127 && significand(0x3F80_0000) == 0x80_0000);
    assert(significand(0) == 0);
    assert(0 * pow2(scale(0)) == 0) by (nonlinear_arith);
    if exponent_field(next) == exponent_field(bits) {
        assert(significand(next) == m + 1);
        assert((m + 1) * p == m * p + p) by (nonlinear_arith);
    } else if exponent_field(bits) == 0 {
        assert(significand(next) == 0x80_0000 && m == 0x7F_FFFF && scale(next) == 1);
        assert(0x80_0000 * p == 0x7F_FFFF * p + p) by (nonlinear_arith);
    } else {
        assert(significand(next) == 0x80_0000 && m == 0xFF_FFFF);
        assert(scale(next) == scale(bits) + 1);
        lemma_pow2_unfold(scale(next));
        assert(0x80_0000 * (2 * p) == 0xFF_FFFF * p + p) by (nonlinear_arith);
    }
    let signed = (bits + 0x8000_0000) as u32;
    assert(unsigned_part(signed) == unsigned_part(bits));
}

/// Which patterns are negative, and which are not a number.
pub proof fn law_special_patterns(bits: u32)
    ensures
        is_negative(bits) <==> bits >= 0x8000_0000,
        is_nan(bits) <==> (0x7F80_0000 < bits < 0x8000_0000 || 0xFF80_0000 < bits),
{
    lemma_fields(bits);
}

/// Whether a number has at most 24 significant bits.
pub open spec fn is_short(y: nat) -> bool {
    exists|q: nat, k: nat| q <= 0x100_0000 && y == #[trigger] (q * pow2(k))
}

/// The distance between two numbers.
pub open spec fn distance(a: nat, b: nat) -> nat {
    if a <= b {
        (b - a) as nat
    } else {
        (a - b) as nat
    }
}

/// The spacing is a power of two, and counts a number in 24 bits.
proof fn lemma_spacing_is_power(x: nat) -> (s: nat)
    ensures
        spacing(x) == pow2(s),
        x / spacing(x) < 0x100_0000,
        s > 0 ==> x / spacing(x) >= 0x80_0000,
    decreases x,
{
    lemma2_to64();
    if x < 0x100_0000 {
        assert(x / 1 == x);
        0
    } else {
        let h = x / 2;
        let t = lemma_spacing_is_power(h);
        lemma_pow2_unfold(t + 1);
        lemma_pow2_pos(t);
        let u = pow2(t);
        lemma_div_denominator(x as int, 2, u as int);
        assert(x / spacing(x) == h / u);
        if t == 0 {
            assert(h / 1 == h);
        }
        t + 1
    }
}

/// Rounding gives a number of 24 significant bits, none of which is nearer; and where
/// another one is just as near, the one that is even in units of their distance.
pub proof fn law_rounding_is_to_nearest_even(x: nat, y: nat)
    requires
        is_short(y),
    ensures
        is_short(nearest(x)),
        distance(x, nearest(x)) <= distance(x, y),
        distance(x, nearest(x)) == distance(x, y) && y != nearest(x) ==> nearest(x) % (2
            * distance(nearest(x), y)) == 0,
{
    let s = lemma_spacing_is_power(x);
    let u = spacing(x);
    lemma_pow2_pos(s);
    let b = x / u;
    let rest = x % u;
    lemma_fundamental_div_mod(x as int, u as int);
    lemma_mod_bound(x as int, u as int);
    assert(u * b == b * u) by (nonlinear_arith);
    assert((b + 1) * u == b * u + u) by (nonlinear_arith);
    assert(b * pow2(s) == b * u);
    assert((b + 1) * pow2(s) == (b + 1) * u);
    // No short number lies strictly between the two candidates.
    assert(y <= b * u || y >= (b + 1) * u) by {
        let (q, k) = choose|q: nat, k: nat| q <= 0x100_0000 && y == #[trigger] (q * pow2(k));
        if k >= s {
            let d = (k - s) as nat;
            lemma_pow2_adds(d, s);
            let w = q * pow2(d);
            let pd = pow2(d);
            assert(q * (pd * u) == (q * pd) * u) by (nonlinear_arith);
            assert(y == w * u);
            if w <= b {
                assert(w * u <= b * u) by (nonlinear_arith)
                    requires
                        w <= b,
                ;
            } else {
                assert(w * u >= (b + 1) * u) by (nonlinear_arith)
                    requires
                        w >= b + 1,
                ;
            }
        } else {
            let h = pow2((s - 1) as nat);
            lemma_pow2_unfold(s);
            if k < s - 1 {
                lemma_pow2_strictly_increases(k, (s - 1) as nat);
            }
            let p = pow2(k);
            assert(q * p <= 0x100_0000 * h) by (nonlinear_arith)
                requires
                    q <= 0x100_0000,
                    p <= h,
            ;
            assert(0x80_0000 * u <= b * u) by (nonlinear_arith)
                requires
                    b >= 0x80_0000,
            ;
        }
    }
    let r = nearest(x);
    if distance(x, r) == distance(x, y) && y != r {
        assert(2 * rest == u);
        assert(distance(r, y) == u);
        let e = if b % 2 == 0 {
            b
        } else {
            b + 1
        };
        assert(r == e * u);
        let f = (e / 2) as int;
        assert(e == 2 * f);
        assert((2 * f) * u == f * (2 * u)) by (nonlinear_arith);
        lemma_mod_multiples_basic(f, (2 * u) as int);
    }
}

/// Scaling drops the fraction of the rounded product: the value in counts is the whole
/// part of it, with the sign of the reading, and stops at the ends of the 32-bit range.
pub proof fn law_scaling_drops_the_fraction(bits: u32)
    ensures
        ({
            let product = nearest(magnitude(bits) * 32767);
            let value = in_counts(bits);
            if is_nan(bits) {
                value == 0
            } else if product >= 0x8000_0000 * one() {
                value == if is_negative(bits) {
                    i32::MIN
                } else {
                    i32::MAX
                }
            } else if is_negative(bits) {
                value <= 0 && -value * one() <= product < (-value + 1) * one()
            } else {
                value >= 0 && value * one() <= product < (value + 1) * one()
            }
        }),
{
    let q = one() as int;
    let n = nearest(magnitude(bits) * 32767) as int;
    lemma_pow2_pos(150);
    let c = n / q;
    assert(magnitude(bits) * AXIS_MAX as nat == magnitude(bits) * 32767);
    assert(c == counts(bits));
    lemma_fundamental_div_mod(n, q);
    lemma_mod_bound(n, q);
    assert(q * c == c * q) by (nonlinear_arith);
    assert((c + 1) * q == c * q + q) by (nonlinear_arith);
    if n >= 0x8000_0000 * q {
        assert(c >= 0x8000_0000) by (nonlinear_arith)
            requires
                n >= 0x8000_0000 * q,
                n < (c + 1) * q,
                q > 0,
        ;
    } else {
        assert(c < 0x8000_0000) by (nonlinear_arith)
            requires
                n < 0x8000_0000 * q,
                c * q <= n,
                q > 0,
        ;
    }
}

} // verus!
