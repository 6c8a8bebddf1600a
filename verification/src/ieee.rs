//! IEEE 754 numbers read from their bit patterns.
//!
//! A single-precision number is a `u32`: one sign bit, eight exponent bits
//! and twenty-three fraction bits. The functions here order such patterns as
//! the numbers they stand for are ordered, and scale them by powers of two,
//! which only moves the exponent. A double-precision number is a `u64` and is
//! only ever compared.

use vstd::arithmetic::power2::lemma_pow2_adds;
use vstd::arithmetic::power2::lemma_pow2_pos;
use vstd::arithmetic::power2::lemma_pow2_strictly_increases;
use vstd::arithmetic::power2::pow2;
use vstd::prelude::*;

verus! {

/// The pattern of `+0.0`.
pub const ZERO: u32 = 0;

/// The pattern of `0.5`.
pub const HALF: u32 = 0x3f00_0000;

/// The pattern of `1.0`.
pub const ONE: u32 = 0x3f80_0000;

/// The pattern of positive infinity.
pub const INFINITY: u32 = 0x7f80_0000;

/// The pattern of `1e-6`, rounded to nearest.
pub const MILLIONTH: u32 = 0x3586_37bd;

/// What one step of the exponent field adds to a pattern.
pub const EXPONENT_STEP: u32 = 0x0080_0000;

/// The pattern without its sign bit.
pub open spec fn magnitude(bits: u32) -> int {
    bits as int % 0x8000_0000
}

pub open spec fn is_negative(bits: u32) -> bool {
    bits >= 0x8000_0000
}

/// The exponent field, from 0 to 255.
pub open spec fn exponent(bits: u32) -> int {
    magnitude(bits) / 0x80_0000
}

/// The fraction field, below 2^23.
pub open spec fn fraction(bits: u32) -> int {
    magnitude(bits) % 0x80_0000
}

pub open spec fn is_nan(bits: u32) -> bool {
    magnitude(bits) > 0x7f80_0000
}

pub open spec fn is_finite(bits: u32) -> bool {
    magnitude(bits) < 0x7f80_0000
}

/// The place of a number among all numbers: patterns that are not NaN are
/// ordered as their ranks are, and both zeros have rank 0.
pub open spec fn rank(bits: u32) -> int {
    if is_negative(bits) {
        -magnitude(bits)
    } else {
        magnitude(bits)
    }
}

/// `a < b` as numbers; false when either is NaN.
pub open spec fn less(a: u32, b: u32) -> bool {
    !is_nan(a) && !is_nan(b) && rank(a) < rank(b)
}

/// `a <= b` as numbers; false when either is NaN.
pub open spec fn at_most(a: u32, b: u32) -> bool {
    !is_nan(a) && !is_nan(b) && rank(a) <= rank(b)
}

/// `a == b` as numbers; false when either is NaN, true of the two zeros.
pub open spec fn same(a: u32, b: u32) -> bool {
    !is_nan(a) && !is_nan(b) && rank(a) == rank(b)
}

/// The absolute value of a finite number, counted in units of 2^-149.
pub open spec fn scaled_magnitude(bits: u32) -> int {
    if exponent(bits) == 0 {
        fraction(bits)
    } else {
        (0x80_0000 + fraction(bits)) * pow2((exponent(bits) - 1) as nat)
    }
}

/// The value of a finite number, counted in units of 2^-149.
pub open spec fn scaled_value(bits: u32) -> int {
    if is_negative(bits) {
        -scaled_magnitude(bits)
    } else {
        scaled_magnitude(bits)
    }
}

/// A larger pattern, the sign left aside, stands for a larger magnitude.
pub proof fn lemma_magnitude_order(a: u32, b: u32)
    requires
        magnitude(a) < magnitude(b),
    ensures
        scaled_magnitude(a) < scaled_magnitude(b),
{
    let ea = exponent(a);
    let eb = exponent(b);
    let fa = fraction(a);
    let fb = fraction(b);
    if ea == eb {
        if ea > 0 {
            lemma_pow2_pos((ea - 1) as nat);
            assert((0x80_0000 + fa) * pow2((ea - 1) as nat) < (0x80_0000 + fb) * pow2(
                (ea - 1) as nat,
            )) by (nonlinear_arith)
                requires
                    fa < fb,
                    pow2((ea - 1) as nat) > 0,
            ;
        }
    } else {
        assert(ea < eb);
        lemma_pow2_pos((eb - 1) as nat);
        if ea == 0 {
            assert((0x80_0000 + fb) * pow2((eb - 1) as nat) >= 0x80_0000) by (nonlinear_arith)
                requires
                    fb >= 0,
                    pow2((eb - 1) as nat) >= 1,
            ;
        } else {
            lemma_pow2_pos((ea - 1) as nat);
            lemma_pow2_adds((ea - 1) as nat, 1);
            assert(pow2(1) == 2) by {
                vstd::arithmetic::power2::lemma2_to64();
            }
            if ea < eb - 1 {
                lemma_pow2_strictly_increases(ea as nat, (eb - 1) as nat);
            }
            assert(pow2(ea as nat) <= pow2((eb - 1) as nat));
            assert((0x80_0000 + fa) * pow2((ea - 1) as nat) < 0x80_0000 * pow2(ea as nat))
                by (nonlinear_arith)
                requires
                    fa < 0x80_0000,
                    pow2((ea - 1) as nat) > 0,
                    pow2(ea as nat) == pow2((ea - 1) as nat) * 2,
            ;
            assert(0x80_0000 * pow2(ea as nat) <= (0x80_0000 + fb) * pow2((eb - 1) as nat))
                by (nonlinear_arith)
                requires
                    fb >= 0,
                    pow2(ea as nat) <= pow2((eb - 1) as nat),
            ;
        }
    }
}

/// Finite numbers are ordered as their ranks are.
pub proof fn lemma_rank_orders_values(a: u32, b: u32)
    requires
        is_finite(a),
        is_finite(b),
    ensures
        less(a, b) <==> scaled_value(a) < scaled_value(b),
        same(a, b) <==> scaled_value(a) == scaled_value(b),
{
    lemma_scaled_magnitude_zero(a);
    lemma_scaled_magnitude_zero(b);
    if magnitude(a) < magnitude(b) {
        lemma_magnitude_order(a, b);
    } else if magnitude(b) < magnitude(a) {
        lemma_magnitude_order(b, a);
    } else {
        assert(exponent(a) == exponent(b));
        assert(fraction(a) == fraction(b));
    }
}

/// The magnitude of a finite number is never negative, and is zero only for
/// the two zeros.
pub proof fn lemma_scaled_magnitude_zero(a: u32)
    requires
        is_finite(a),
    ensures
        scaled_magnitude(a) >= 0,
        scaled_magnitude(a) == 0 <==> magnitude(a) == 0,
{
    let e = exponent(a);
    let f = fraction(a);
    if e > 0 {
        lemma_pow2_pos((e - 1) as nat);
        assert((0x80_0000 + f) * pow2((e - 1) as nat) > 0) by (nonlinear_arith)
            requires
                f >= 0,
                pow2((e - 1) as nat) > 0,
        ;
    }
}

/// Whether the pattern is a positive number with a full significand: neither
/// zero nor subnormal; positive infinity counts.
pub open spec fn is_positive_normal(bits: u32) -> bool {
    0x0080_0000 <= bits <= 0x7f80_0000
}

/// The number times 2^`k`, exactly: the exponent moves by `k` and the result
/// is infinite once it leaves the exponent range upwards. Meant for positive
/// normal numbers whose exponent field stays at least 1.
pub open spec fn scaled_by(bits: u32, k: int) -> u32 {
    if bits >= 0x7f80_0000 || exponent(bits) + k >= 255 {
        0x7f80_0000u32
    } else {
        (bits + k * 0x80_0000) as u32
    }
}

/// Twice the number, exactly. Meant for numbers that are neither negative
/// nor NaN.
pub open spec fn twice(bits: u32) -> u32 {
    if bits >= 0x7f00_0000 {
        0x7f80_0000u32
    } else if bits < 0x0080_0000 {
        (2 * bits) as u32
    } else {
        (bits + 0x0080_0000) as u32
    }
}

/// Scaling a positive normal number up by 2^`k` multiplies its value by
/// 2^`k`, as long as the result is finite.
pub proof fn lemma_scaled_up(bits: u32, k: nat)
    requires
        is_positive_normal(bits),
        exponent(bits) + k < 255,
    ensures
        is_positive_normal(scaled_by(bits, k as int)),
        is_finite(scaled_by(bits, k as int)),
        exponent(scaled_by(bits, k as int)) == exponent(bits) + k,
        fraction(scaled_by(bits, k as int)) == fraction(bits),
        scaled_value(scaled_by(bits, k as int)) == scaled_value(bits) * pow2(k),
{
    let e = exponent(bits);
    let f = fraction(bits);
    let r = scaled_by(bits, k as int);
    assert(bits == e * 0x80_0000 + f);
    assert(r == (e + k) * 0x80_0000 + f) by (nonlinear_arith)
        requires
            r == bits + k * 0x80_0000,
            bits == e * 0x80_0000 + f,
    ;
    assert(exponent(r) == e + k && fraction(r) == f) by {
        assert(r as int % 0x8000_0000 == r as int);
        assert(((e + k) * 0x80_0000 + f) / 0x80_0000 == e + k);
        assert(((e + k) * 0x80_0000 + f) % 0x80_0000 == f);
    }
    lemma_pow2_adds((e - 1) as nat, k);
    assert((0x80_0000 + f) * pow2((e + k - 1) as nat) == ((0x80_0000 + f) * pow2((e - 1) as nat))
        * pow2(k)) by (nonlinear_arith)
        requires
            pow2((e + k - 1) as nat) == pow2((e - 1) as nat) * pow2(k),
    ;
}

/// Scaling a positive normal number down by 2^`k` divides its value by 2^`k`,
/// as long as the result is still normal.
pub proof fn lemma_scaled_down(bits: u32, k: nat)
    requires
        is_positive_normal(bits),
        is_finite(bits),
        exponent(bits) - k >= 1,
    ensures
        is_positive_normal(scaled_by(bits, -(k as int))),
        is_finite(scaled_by(bits, -(k as int))),
        scaled_value(scaled_by(bits, -(k as int))) * pow2(k) == scaled_value(bits),
{
    let r = scaled_by(bits, -(k as int));
    let e = exponent(bits);
    let f = fraction(bits);
    assert(bits == e * 0x80_0000 + f);
    assert(r == (e - k) * 0x80_0000 + f) by (nonlinear_arith)
        requires
            r == bits - k * 0x80_0000,
            bits == e * 0x80_0000 + f,
    ;
    assert(exponent(r) == e - k && fraction(r) == f) by {
        assert(r as int % 0x8000_0000 == r as int);
        assert(((e - k) * 0x80_0000 + f) / 0x80_0000 == e - k);
        assert(((e - k) * 0x80_0000 + f) % 0x80_0000 == f);
    }
    lemma_scaled_up(r, k);
    assert(scaled_by(r, k as int) == bits) by (nonlinear_arith)
        requires
            scaled_by(r, k as int) == r + k * 0x80_0000,
            r == bits - k * 0x80_0000,
    ;
}

/// Doubling doubles the value, as long as the result is finite.
pub proof fn lemma_twice(bits: u32)
    requires
        bits < 0x7f00_0000,
    ensures
        is_finite(twice(bits)),
        scaled_value(twice(bits)) == 2 * scaled_value(bits),
{
    assert(pow2(0) == 1 && pow2(1) == 2) by {
        vstd::arithmetic::power2::lemma2_to64();
    }
    let r = twice(bits);
    if bits >= 0x0080_0000 {
        lemma_scaled_up(bits, 1);
        assert(r == scaled_by(bits, 1));
        assert(scaled_value(r) == scaled_value(bits) * 2);
    } else if bits >= 0x0040_0000 {
        assert(exponent(r) == 1);
        assert(fraction(r) == 2 * bits - 0x80_0000);
        assert(exponent(bits) == 0);
        assert(scaled_magnitude(r) == (0x80_0000 + fraction(r)) * pow2(0));
        assert(scaled_value(r) == 2 * bits);
    } else {
        assert(exponent(r) == 0);
        assert(exponent(bits) == 0);
        assert(scaled_value(r) == 2 * bits);
    }
}

/// Whether the pattern is a NaN.
pub fn is_not_a_number(bits: u32) -> (r: bool)
    ensures
        r == is_nan(bits),
{
    bits % 0x8000_0000 > INFINITY
}

/// The pattern of the absolute value: the sign bit is cleared.
pub fn abs(bits: u32) -> (r: u32)
    ensures
        r == magnitude(bits),
        !is_negative(r),
        is_nan(r) == is_nan(bits),
{
    bits % 0x8000_0000
}

fn rank_of(bits: u32) -> (r: i64)
    ensures
        r == rank(bits),
{
    let m: i64 = (bits % 0x8000_0000) as i64;
    if bits >= 0x8000_0000 {
        -m
    } else {
        m
    }
}

/// `a < b` as numbers.
pub fn is_less(a: u32, b: u32) -> (r: bool)
    ensures
        r == less(a, b),
{
    !is_not_a_number(a) && !is_not_a_number(b) && rank_of(a) < rank_of(b)
}

/// `a <= b` as numbers.
pub fn is_at_most(a: u32, b: u32) -> (r: bool)
    ensures
        r == at_most(a, b),
{
    !is_not_a_number(a) && !is_not_a_number(b) && rank_of(a) <= rank_of(b)
}

/// `a == b` as numbers.
pub fn is_same(a: u32, b: u32) -> (r: bool)
    ensures
        r == same(a, b),
{
    !is_not_a_number(a) && !is_not_a_number(b) && rank_of(a) == rank_of(b)
}

/// The number times 2^`k`.
pub fn scale(bits: u32, k: i32) -> (r: u32)
    requires
        is_positive_normal(bits),
        exponent(bits) + k >= 1,
        -0x1000 <= k <= 0x1000,
    ensures
        r == scaled_by(bits, k as int),
        is_positive_normal(r),
        r == INFINITY || exponent(r) == exponent(bits) + k,
{
    let e: i32 = (bits / EXPONENT_STEP) as i32;
    assert(e == exponent(bits));
    if bits >= INFINITY || e + k >= 255 {
        INFINITY
    } else {
        let moved: i64 = bits as i64 + (k as i64) * (EXPONENT_STEP as i64);
        assert(0x0080_0000 <= moved < 0x7f80_0000) by {
            assert(bits == e * 0x80_0000 + fraction(bits));
        }
        moved as u32
    }
}

/// Twice the number.
pub fn double(bits: u32) -> (r: u32)
    requires
        !is_negative(bits),
        !is_nan(bits),
    ensures
        r == twice(bits),
        !is_negative(r),
        !is_nan(r),
{
    if bits >= 0x7f00_0000 {
        INFINITY
    } else if bits < EXPONENT_STEP {
        2 * bits
    } else {
        bits + EXPONENT_STEP
    }
}

/// The number held between two bounds: the lower bound where the number is
/// below it or a NaN, the upper bound where it is above it, and else the
/// number itself.
pub open spec fn held_between(x: u32, low: u32, high: u32) -> u32 {
    if !at_most(low, x) {
        low
    } else if !at_most(x, high) {
        high
    } else {
        x
    }
}

/// The number held between two bounds.
pub fn hold_between(x: u32, low: u32, high: u32) -> (r: u32)
    ensures
        r == held_between(x, low, high),
        at_most(low, high) ==> at_most(low, r) && at_most(r, high),
{
    if !is_at_most(low, x) {
        low
    } else if !is_at_most(x, high) {
        high
    } else {
        x
    }
}

/// The pattern of the double-precision `1.0`.
pub const DOUBLE_ONE: u64 = 0x3ff0_0000_0000_0000;

/// The double-precision pattern without its sign bit.
pub open spec fn double_magnitude(bits: u64) -> int {
    bits as int % 0x8000_0000_0000_0000
}

pub open spec fn double_is_nan(bits: u64) -> bool {
    double_magnitude(bits) > 0x7ff0_0000_0000_0000
}

/// The place of a double-precision number among all of them.
pub open spec fn double_rank(bits: u64) -> int {
    if bits >= 0x8000_0000_0000_0000 {
        -double_magnitude(bits)
    } else {
        double_magnitude(bits)
    }
}

/// `a <= b` as double-precision numbers; false when either is NaN.
pub open spec fn double_at_most(a: u64, b: u64) -> bool {
    !double_is_nan(a) && !double_is_nan(b) && double_rank(a) <= double_rank(b)
}

/// `a < b` as double-precision numbers; false when either is NaN.
pub open spec fn double_less(a: u64, b: u64) -> bool {
    !double_is_nan(a) && !double_is_nan(b) && double_rank(a) < double_rank(b)
}

fn double_rank_of(bits: u64) -> (r: i64)
    ensures
        r == double_rank(bits),
{
    let m: i64 = (bits % 0x8000_0000_0000_0000) as i64;
    if bits >= 0x8000_0000_0000_0000 {
        -m
    } else {
        m
    }
}

/// `a <= b` as double-precision numbers.
pub fn double_is_at_most(a: u64, b: u64) -> (r: bool)
    ensures
        r == double_at_most(a, b),
{
    a % 0x8000_0000_0000_0000 <= 0x7ff0_0000_0000_0000 && b % 0x8000_0000_0000_0000
        <= 0x7ff0_0000_0000_0000 && double_rank_of(a) <= double_rank_of(b)
}

/// `a < b` as double-precision numbers.
pub fn double_is_less(a: u64, b: u64) -> (r: bool)
    ensures
        r == double_less(a, b),
{
    a % 0x8000_0000_0000_0000 <= 0x7ff0_0000_0000_0000 && b % 0x8000_0000_0000_0000
        <= 0x7ff0_0000_0000_0000 && double_rank_of(a) < double_rank_of(b)
}

} // verus!
