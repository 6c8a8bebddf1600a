//! Sums, differences, products and quotients of single-precision numbers,
//! whole numbers as such numbers, and their whole parts, all rounded as
//! IEEE 754 rounds them.
//!
//! The numbers are finite and, but for the sign that a product or a
//! quotient may carry through, not negative.

use crate::ieee::exponent;
use crate::ieee::fraction;
use crate::ieee::INFINITY;
use crate::ieee::is_finite;
use crate::ieee::lemma_magnitude_order;
use crate::ieee::lemma_scaled_magnitude_zero;
use crate::ieee::magnitude;
use crate::ieee::ONE;
use crate::ieee::scaled_magnitude;
use crate::rounding::is_rounded;
use crate::rounding::lemma_large_powers;
use crate::rounding::lemma_pattern_value;
use crate::rounding::lemma_rounded_above;
use crate::rounding::lemma_rounded_below;
use crate::rounding::lemma_rounded_exact;
use crate::rounding::lemma_rounded_exists;
use crate::rounding::lemma_rounded_is;
use crate::rounding::lemma_rounded_monotone;
use crate::rounding::lemma_rounded_zero;
use crate::rounding::lemma_scaled_order;
use crate::rounding::lemma_significand;
use crate::rounding::lemma_units_order;
use crate::rounding::pack;
use crate::rounding::parts;
use crate::rounding::pattern;
use crate::rounding::power_of_two;
use crate::rounding::round;
use crate::rounding::rounded;
use crate::rounding::significand;
use crate::rounding::step;
use crate::rounding::units;
use vstd::arithmetic::div_mod::lemma_basic_div;
use vstd::arithmetic::div_mod::lemma_div_by_multiple;
use vstd::arithmetic::div_mod::lemma_div_multiples_vanish_quotient;
use vstd::arithmetic::div_mod::lemma_div_pos_is_pos;
use vstd::arithmetic::div_mod::lemma_fundamental_div_mod;
use vstd::arithmetic::power2::lemma2_to64;
use vstd::arithmetic::power2::lemma2_to64_rest;
use vstd::arithmetic::power2::lemma_pow2_adds;
use vstd::arithmetic::power2::lemma_pow2_pos;
use vstd::arithmetic::power2::lemma_pow2_strictly_increases;
use vstd::arithmetic::power2::pow2;
use vstd::prelude::*;

verus! {

/// The sum of two numbers that are finite and not negative.
pub open spec fn sum(a: u32, b: u32) -> u32 {
    rounded(units(a) + units(b), 1)
}

/// The difference of two numbers that are finite and not negative, the
/// first at least as large as the second.
pub open spec fn difference(a: u32, b: u32) -> u32 {
    rounded(units(a) - units(b), 1)
}

/// The product of two numbers that are finite and not negative.
pub open spec fn product(a: u32, b: u32) -> u32 {
    rounded(units(a) * units(b), pow2(149) as int)
}

/// The quotient of a number that is finite and not negative by one that is
/// finite and positive.
pub open spec fn quotient(a: u32, b: u32) -> u32 {
    rounded(units(a) * pow2(149), units(b))
}

/// The product of a finite number and one that is finite and not negative:
/// the product of the magnitudes, with the sign of the first number.
pub open spec fn signed_product(a: u32, b: u32) -> u32 {
    if a >= 0x8000_0000 {
        (product((a - 0x8000_0000) as u32, b) + 0x8000_0000) as u32
    } else {
        product(a, b)
    }
}

/// The quotient of a finite number by one that is finite and positive: the
/// quotient of the magnitudes, with the sign of the first number.
pub open spec fn signed_quotient(a: u32, b: u32) -> u32 {
    if a >= 0x8000_0000 {
        (quotient((a - 0x8000_0000) as u32, b) + 0x8000_0000) as u32
    } else {
        quotient(a, b)
    }
}

/// The sum of two finite numbers of any sign. Numbers of one sign add their
/// magnitudes and keep the sign; of numbers of two signs the smaller
/// magnitude is taken from the larger, whose sign is kept; and what cancels
/// is the positive zero.
pub open spec fn signed_sum(a: u32, b: u32) -> u32 {
    let size_a = magnitude(a) as u32;
    let size_b = magnitude(b) as u32;
    if (a >= 0x8000_0000) == (b >= 0x8000_0000) {
        if a >= 0x8000_0000 {
            (sum(size_a, size_b) + 0x8000_0000) as u32
        } else {
            sum(size_a, size_b)
        }
    } else if size_a == size_b {
        0
    } else if size_a > size_b {
        if a >= 0x8000_0000 {
            (difference(size_a, size_b) + 0x8000_0000) as u32
        } else {
            difference(size_a, size_b)
        }
    } else {
        if b >= 0x8000_0000 {
            (difference(size_b, size_a) + 0x8000_0000) as u32
        } else {
            difference(size_b, size_a)
        }
    }
}

/// The whole number `n` as a single-precision number.
pub open spec fn integer(n: u64) -> u32 {
    rounded(n * pow2(149), 1)
}

/// The whole part of a number, as a conversion to a 64-bit whole number
/// gives it: nothing for a negative number or a NaN, and the largest whole
/// number for a number too large.
pub open spec fn truncated(x: u32) -> u64 {
    if x >= 0x8000_0000 || x > 0x7f80_0000 {
        0
    } else if units(x) / (pow2(149) as int) > u64::MAX {
        u64::MAX
    } else {
        (units(x) / (pow2(149) as int)) as u64
    }
}

/// The whole part of a number that is finite and not negative, as a
/// single-precision number: from 2^23 on every number is whole.
pub open spec fn floored(x: u32) -> u32 {
    if x >= 0x4b00_0000 {
        x
    } else {
        integer(truncated(x))
    }
}

/// The sum of two numbers that are finite and not negative.
pub fn plus(a: u32, b: u32) -> (r: u32)
    requires
        a < 0x7f80_0000,
        b < 0x7f80_0000,
    ensures
        r == sum(a, b),
        r <= 0x7f80_0000,
{
    let high = if a >= b {
        a
    } else {
        b
    };
    let low = if a >= b {
        b
    } else {
        a
    };
    let (high_step, high_significand) = parts(high);
    let (low_step, low_significand) = parts(low);
    let ghost x = scaled_magnitude(a) + scaled_magnitude(b);
    let ghost w = pow2((low_step - 1) as nat) as int;
    proof {
        lemma_significand(high);
        lemma_significand(low);
        lemma_pow2_pos((low_step - 1) as nat);
        lemma_pow2_adds((high_step - low_step) as nat, (low_step - 1) as nat);
        assert(x == (high_significand * pow2((high_step - low_step) as nat) + low_significand)
            * w) by (nonlinear_arith)
            requires
                x == high_significand * pow2((high_step - 1) as nat) + low_significand * w,
                pow2((high_step - 1) as nat) == pow2((high_step - low_step) as nat) * w,
        ;
    }
    let distance = high_step - low_step;
    let r = if distance >= 26 {
        proof {
            lemma_far_apart(x, high, low_significand as int, w, distance as nat);
        }
        high
    } else {
        let scale = power_of_two(distance);
        proof {
            lemma2_to64();
            if distance < 25 {
                lemma_pow2_strictly_increases(distance as nat, 25);
            }
        }
        assert(high_significand * scale <= 0xff_ffff * 0x200_0000) by (nonlinear_arith)
            requires
                high_significand <= 0xff_ffff,
                scale <= 0x200_0000,
        ;
        let total: u128 = high_significand as u128 * scale + low_significand as u128;
        proof {
            assert((4 * total) * (w * 1) == 4 * x) by (nonlinear_arith)
                requires
                    x == total * w,
            ;
            assert((4 * total + 1) * (w * 1) > 4 * x) by (nonlinear_arith)
                requires
                    x == total * w,
                    w > 0,
            ;
            assert(low_step > 1 ==> total >= 0x80_0000) by (nonlinear_arith)
                requires
                    low_step > 1 ==> low_significand >= 0x80_0000,
                    total == high_significand * scale + low_significand,
                    high_significand >= 0,
                    scale >= 0,
            ;
        }
        round(4 * total, false, low_step, Ghost(x), Ghost(1))
    };
    proof {
        lemma_rounded_is(x, 1, r);
    }
    r
}

/// A number at least 26 exponent steps above another is the sum of both.
proof fn lemma_far_apart(x: int, high: u32, low_significand: int, w: int, distance: nat)
    requires
        high < 0x7f80_0000,
        0 <= low_significand < 0x100_0000,
        w > 0,
        x == scaled_magnitude(high) + low_significand * w,
        distance >= 26,
        pow2((step(high) - 1) as nat) == pow2(distance) * w,
    ensures
        is_rounded(x, 1, high),
{
    let gap = pow2((step(high) - 1) as nat) as int;
    lemma_significand(high);
    lemma2_to64();
    if distance > 26 {
        lemma_pow2_strictly_increases(26, distance);
    }
    assert(gap >= 0x400_0000 * w) by (nonlinear_arith)
        requires
            gap == pow2(distance) * w,
            pow2(distance) >= 0x400_0000,
            w > 0,
    ;
    assert(0 <= low_significand * w < 0x100_0000 * w) by (nonlinear_arith)
        requires
            0 <= low_significand < 0x100_0000,
            w > 0,
    ;
    assert(pattern(step(high), significand(high) + 1) == high + 1);
    lemma_pattern_value(step(high), significand(high) + 1);
    assert((significand(high) + 1) * gap == significand(high) * gap + gap) by (nonlinear_arith);
    assert(units((high + 1) as u32) - units(high) == gap);
    if high > 0 {
        lemma_units_order((high - 1) as u32, high);
    }
}

/// The difference of two numbers that are finite and not negative, the
/// first at least as large as the second.
pub fn minus(a: u32, b: u32) -> (r: u32)
    requires
        b <= a < 0x7f80_0000,
    ensures
        r == difference(a, b),
        r <= a,
{
    let (high_step, high_significand) = parts(a);
    let (low_step, low_significand) = parts(b);
    let ghost x = scaled_magnitude(a) - scaled_magnitude(b);
    let ghost w = pow2((low_step - 1) as nat) as int;
    let distance = high_step - low_step;
    proof {
        lemma_significand(a);
        lemma_significand(b);
        lemma_pow2_pos((low_step - 1) as nat);
        lemma_pow2_adds(distance as nat, (low_step - 1) as nat);
        if b < a {
            lemma_magnitude_order(b, a);
        }
        assert(x == (high_significand * pow2(distance as nat) - low_significand) * w)
            by (nonlinear_arith)
            requires
                x == high_significand * pow2((high_step - 1) as nat) - low_significand * w,
                pow2((high_step - 1) as nat) == pow2(distance as nat) * w,
        ;
        lemma_scaled_order(0, high_significand * pow2(distance as nat) - low_significand, w);
    }
    let r = if distance <= 60 {
        let scale = power_of_two(distance);
        proof {
            lemma2_to64();
            lemma2_to64_rest();
            if distance < 60 {
                lemma_pow2_strictly_increases(distance as nat, 60);
            }
        }
        assert(high_significand * scale <= 0xff_ffff * 0x1000_0000_0000_0000) by (nonlinear_arith)
            requires
                high_significand <= 0xff_ffff,
                scale <= 0x1000_0000_0000_0000,
        ;
        let total: u128 = high_significand as u128 * scale - low_significand as u128;
        proof {
            assert((4 * total) * (pow2((low_step - 1) as nat) * 1) == 4 * x) by (nonlinear_arith)
                requires
                    x == total * w,
                    w == pow2((low_step - 1) as nat),
            ;
            assert((4 * total + 1) * (pow2((low_step - 1) as nat) * 1) > 4 * x)
                by (nonlinear_arith)
                requires
                    x == total * w,
                    w == pow2((low_step - 1) as nat),
                    w > 0,
            ;
        }
        pack(4 * total, false, low_step, Ghost(x), Ghost(1))
    } else if b == 0 {
        proof {
            reveal(units);
            assert(scaled_magnitude(0) == 0);
            lemma_rounded_exact(x, 1, a);
        }
        a
    } else {
        // the second number is less than a quarter of 2^-30 steps of the first
        let scale = power_of_two(32);
        proof {
            lemma2_to64();
        }
        let total: u128 = high_significand as u128 * scale;
        proof {
            let k = pow2((high_step - 31) as nat) as int;
            lemma_pow2_pos((high_step - 31) as nat);
            lemma_pow2_adds(30, (high_step - 31) as nat);
            lemma_pow2_adds((distance - 30) as nat, (low_step - 1) as nat);
            if distance - 30 > 31 {
                lemma_pow2_strictly_increases(31, (distance - 30) as nat);
            }
            assert(k * 1 == k);
            assert(total * k == 4 * scaled_magnitude(a)) by (nonlinear_arith)
                requires
                    total == high_significand * 0x1_0000_0000,
                    scaled_magnitude(a) == high_significand * pow2((high_step - 1) as nat),
                    pow2((high_step - 1) as nat) == 0x4000_0000 * k,
            ;
            assert(0 < 4 * scaled_magnitude(b) < k) by (nonlinear_arith)
                requires
                    scaled_magnitude(b) == low_significand * w,
                    0 < low_significand < 0x100_0000,
                    w > 0,
                    k == pow2((distance - 30) as nat) * w,
                    pow2((distance - 30) as nat) >= 0x8000_0000,
            ;
            assert((total - 1) * k == total * k - k) by (nonlinear_arith);
            assert((total - 1 + 1) * k == total * k);
            assert(total >= 0x80_0000 * 0x1_0000_0000) by (nonlinear_arith)
                requires
                    total == high_significand * 0x1_0000_0000,
                    high_significand >= 0x80_0000,
            ;
        }
        round((total - 1) as u128, true, high_step - 30, Ghost(x), Ghost(1))
    };
    proof {
        lemma_rounded_is(x, 1, r);
        reveal(units);
        lemma_scaled_magnitude_zero(b);
        lemma_rounded_below(x, 1, r, a);
    }
    r
}

/// What a whole division says of the ratio it approximates: the quotient
/// of `count` by `divisor`, both taken `k` times, lies at the whole quotient
/// or less than one above, and at it exactly when nothing remains.
proof fn lemma_division(count: int, divisor: int, whole: int, rest: int, k: int)
    requires
        k > 0,
        divisor > 0,
        count == whole * divisor + rest,
        0 <= rest < divisor,
    ensures
        whole * (divisor * k) <= count * k < (whole + 1) * (divisor * k),
        count * k != whole * (divisor * k) <==> rest != 0,
{
    assert(count * k == whole * (divisor * k) + rest * k) by (nonlinear_arith)
        requires
            count == whole * divisor + rest,
    ;
    assert((whole + 1) * (divisor * k) == whole * (divisor * k) + divisor * k)
        by (nonlinear_arith);
    lemma_scaled_order(rest, divisor, k);
    lemma_scaled_order(0, rest, k);
}

/// The product of two numbers that are finite and not negative.
pub fn times(a: u32, b: u32) -> (r: u32)
    requires
        a < 0x7f80_0000,
        b < 0x7f80_0000,
    ensures
        r == product(a, b),
        r <= 0x7f80_0000,
{
    let ghost n = scaled_magnitude(a) * scaled_magnitude(b);
    let ghost d = pow2(149) as int;
    proof {
        lemma_pow2_pos(149);
        lemma_significand(a);
        lemma_significand(b);
    }
    if a == 0 || b == 0 {
        proof {
            assert(n == 0) by (nonlinear_arith)
                requires
                    n == scaled_magnitude(a) * scaled_magnitude(b),
                    scaled_magnitude(a) == 0 || scaled_magnitude(b) == 0,
            ;
            lemma_rounded_zero(d);
        }
        return 0;
    }
    let (a_step, a_significand) = parts(a);
    let (b_step, b_significand) = parts(b);
    assert(1 <= a_significand * b_significand <= 0xff_ffff * 0xff_ffff) by (nonlinear_arith)
        requires
            1 <= a_significand <= 0xff_ffff,
            1 <= b_significand <= 0xff_ffff,
    ;
    let whole: u128 = a_significand as u128 * b_significand as u128;
    let steps = a_step + b_step;
    proof {
        lemma_pow2_adds((a_step - 1) as nat, (b_step - 1) as nat);
        assert(n == whole * pow2((steps - 2) as nat)) by (nonlinear_arith)
            requires
                n == (a_significand * pow2((a_step - 1) as nat)) * (b_significand * pow2(
                    (b_step - 1) as nat,
                )),
                whole == a_significand * b_significand,
                pow2((steps - 2) as nat) == pow2((a_step - 1) as nat) * pow2((b_step - 1) as nat),
        ;
    }
    let r = if steps >= 151 {
        let exponent = steps - 150;
        proof {
            let w = pow2((exponent - 1) as nat) as int;
            lemma_pow2_adds((exponent - 1) as nat, 149);
            lemma_pow2_pos((steps - 2) as nat);
            assert((4 * whole) * (w * d) == 4 * n) by (nonlinear_arith)
                requires
                    n == whole * pow2((steps - 2) as nat),
                    pow2((steps - 2) as nat) == w * d,
            ;
            assert((4 * whole + 1) * (w * d) > 4 * n) by (nonlinear_arith)
                requires
                    n == whole * pow2((steps - 2) as nat),
                    pow2((steps - 2) as nat) == w * d,
                    w * d > 0,
            ;
            if exponent > 1 {
                assert(whole >= 0x80_0000) by (nonlinear_arith)
                    requires
                        whole == a_significand * b_significand,
                        a_significand >= 1,
                        b_significand >= 1,
                        a_significand >= 0x80_0000 || b_significand >= 0x80_0000,
                ;
            }
        }
        round(4 * whole, false, exponent, Ghost(n), Ghost(d))
    } else {
        let down = 151 - steps;
        let quarters: u128 = 4 * whole;
        let ghost part = pow2((steps - 2) as nat) as int;
        proof {
            lemma2_to64();
            lemma2_to64_rest();
            lemma_pow2_pos((steps - 2) as nat);
            lemma_pow2_adds(down as nat, (steps - 2) as nat);
            assert(d == pow2(down as nat) * part);
            assert(4 * n == quarters * part) by (nonlinear_arith)
                requires
                    n == whole * part,
                    quarters == 4 * whole,
            ;
            assert(pow2(0) * d == d);
        }
        if down >= 52 {
            proof {
                if down > 52 {
                    lemma_pow2_strictly_increases(52, down as nat);
                }
                lemma_division(quarters as int, pow2(down as nat) as int, 0, quarters as int, part);
                assert(0 * (pow2(0) * d) == 0);
                assert((0 + 1) * (pow2(0) * d) == d);
                assert((pow2(down as nat) * part) == d);
            }
            round(0, true, 1, Ghost(n), Ghost(d))
        } else {
            let unit = power_of_two(down);
            let kept = quarters / unit;
            let lost = quarters % unit;
            proof {
                assert(quarters == kept * unit + lost) by (nonlinear_arith)
                    requires
                        kept == quarters / unit,
                        lost == quarters % unit,
                        unit > 0,
                ;
                lemma_division(quarters as int, unit as int, kept as int, lost as int, part);
                assert(kept <= quarters) by (nonlinear_arith)
                    requires
                        quarters == kept * unit + lost,
                        unit >= 1,
                        lost >= 0,
                        kept >= 0,
                ;
            }
            round(kept, lost != 0, 1, Ghost(n), Ghost(d))
        }
    };
    proof {
        lemma_rounded_is(n, d, r);
    }
    r
}

/// The product of a finite number and one that is finite and not negative.
pub fn times_signed(a: u32, b: u32) -> (r: u32)
    requires
        is_finite(a),
        b < 0x7f80_0000,
    ensures
        r == signed_product(a, b),
        magnitude(r) == product(magnitude(a) as u32, b),
        magnitude(r) <= 0x7f80_0000,
{
    if a >= 0x8000_0000 {
        times(a - 0x8000_0000, b) + 0x8000_0000
    } else {
        times(a, b)
    }
}

/// The quotient of a number that is finite and not negative by one that is
/// finite and positive.
pub fn divided(a: u32, b: u32) -> (r: u32)
    requires
        a < 0x7f80_0000,
        0 < b < 0x7f80_0000,
    ensures
        r == quotient(a, b),
        r <= 0x7f80_0000,
{
    let ghost n = scaled_magnitude(a) * pow2(149);
    let ghost d = scaled_magnitude(b);
    proof {
        lemma_pow2_pos(149);
        lemma_significand(a);
        lemma_significand(b);
        lemma_pow2_pos((step(b) - 1) as nat);
        assert(d > 0) by (nonlinear_arith)
            requires
                d == significand(b) * pow2((step(b) - 1) as nat),
                significand(b) > 0,
                pow2((step(b) - 1) as nat) > 0,
        ;
    }
    if a == 0 {
        proof {
            assert(n == 0) by (nonlinear_arith)
                requires
                    n == scaled_magnitude(a) * pow2(149),
                    scaled_magnitude(a) == 0,
            ;
            lemma_rounded_zero(d);
        }
        return 0;
    }
    let (a_step, a_significand) = parts(a);
    let (b_step, b_significand) = parts(b);
    // the quotient is that of the significands times 2^(a_step - b_step + 149) units
    proof {
        lemma2_to64();
        lemma_pow2_adds(2, (a_step + 148) as nat);
        lemma_pow2_adds((a_step - 1) as nat, 149);
        assert(4 * n == a_significand * pow2((a_step + 150) as nat)) by (nonlinear_arith)
            requires
                n == (a_significand * pow2((a_step - 1) as nat)) * pow2(149),
                pow2((a_step + 148) as nat) == pow2((a_step - 1) as nat) * pow2(149),
                pow2((a_step + 150) as nat) == 4 * pow2((a_step + 148) as nat),
        ;
    }
    let r = if a_step + 100 >= b_step {
        let scale = power_of_two(50);
        proof {
            lemma2_to64_rest();
        }
        assert(a_significand * scale <= 0xff_ffff * 0x4_0000_0000_0000) by (nonlinear_arith)
            requires
                a_significand <= 0xff_ffff,
                scale == 0x4_0000_0000_0000,
        ;
        let count: u128 = a_significand as u128 * scale;
        let whole = count / b_significand as u128;
        let rest = count % b_significand as u128;
        let exponent = a_step + 102 - b_step;
        proof {
            let w = pow2((exponent - 1) as nat) as int;
            let k = pow2((a_step + 100) as nat) as int;
            lemma2_to64_rest();
            lemma_pow2_pos((a_step + 100) as nat);
            lemma_pow2_adds((exponent - 1) as nat, (b_step - 1) as nat);
            lemma_pow2_adds(50, (a_step + 100) as nat);
            assert(count == whole * b_significand + rest) by (nonlinear_arith)
                requires
                    whole == count / (b_significand as u128),
                    rest == count % (b_significand as u128),
                    b_significand > 0,
            ;
            assert(w * d == b_significand * k) by (nonlinear_arith)
                requires
                    d == b_significand * pow2((b_step - 1) as nat),
                    k == w * pow2((b_step - 1) as nat),
            ;
            assert(4 * n == count * k) by (nonlinear_arith)
                requires
                    4 * n == a_significand * pow2((a_step + 150) as nat),
                    pow2((a_step + 150) as nat) == pow2(50) * k,
                    count == a_significand * pow2(50),
            ;
            lemma_division(count as int, b_significand as int, whole as int, rest as int, k);
            assert(whole >= 0x200_0000) by (nonlinear_arith)
                requires
                    count == whole * b_significand + rest,
                    rest < b_significand,
                    0 < b_significand < 0x100_0000,
                    count >= 0x4_0000_0000_0000,
                    whole >= 0,
            ;
            assert(whole <= count) by (nonlinear_arith)
                requires
                    count == whole * b_significand + rest,
                    b_significand >= 1,
                    rest >= 0,
                    whole >= 0,
            ;
        }
        round(whole, rest != 0, exponent, Ghost(n), Ghost(d))
    } else if a_step + 151 >= b_step {
        // the significand of `a` is raised, by at most 2^50
        let raise = a_step + 151 - b_step;
        let scale = power_of_two(raise);
        proof {
            lemma2_to64_rest();
            if raise < 50 {
                lemma_pow2_strictly_increases(raise as nat, 50);
            }
        }
        assert(a_significand * scale <= 0xff_ffff * 0x4_0000_0000_0000) by (nonlinear_arith)
            requires
                a_significand <= 0xff_ffff,
                scale <= 0x4_0000_0000_0000,
        ;
        let count: u128 = a_significand as u128 * scale;
        let whole = count / b_significand as u128;
        let rest = count % b_significand as u128;
        proof {
            let k = pow2((b_step - 1) as nat) as int;
            lemma2_to64();
            lemma_pow2_adds(raise as nat, (b_step - 1) as nat);
            assert(count == whole * b_significand + rest) by (nonlinear_arith)
                requires
                    whole == count / (b_significand as u128),
                    rest == count % (b_significand as u128),
                    b_significand > 0,
            ;
            assert(pow2(0) * d == b_significand * k);
            assert(4 * n == count * k) by (nonlinear_arith)
                requires
                    4 * n == a_significand * pow2((a_step + 150) as nat),
                    pow2((a_step + 150) as nat) == pow2(raise as nat) * k,
                    count == a_significand * pow2(raise as nat),
            ;
            lemma_division(count as int, b_significand as int, whole as int, rest as int, k);
            assert(whole <= count) by (nonlinear_arith)
                requires
                    count == whole * b_significand + rest,
                    b_significand >= 1,
                    rest >= 0,
                    whole >= 0,
            ;
        }
        round(whole, rest != 0, 1, Ghost(n), Ghost(d))
    } else {
        // the significand of `b` is raised, by at most 2^102
        let raise = b_step - a_step - 151;
        let scale = power_of_two(raise);
        proof {
            lemma_large_powers();
            lemma2_to64_rest();
            lemma_pow2_adds(64, 38);
            if raise < 102 {
                lemma_pow2_strictly_increases(raise as nat, 102);
            }
        }
        assert(b_significand * scale <= 0xff_ffff * 0x40_0000_0000_0000_0000_0000_0000)
            by (nonlinear_arith)
            requires
                b_significand <= 0xff_ffff,
                scale <= 0x40_0000_0000_0000_0000_0000_0000,
        ;
        let divisor: u128 = b_significand as u128 * scale;
        let count: u128 = a_significand as u128;
        assert(divisor > 0) by (nonlinear_arith)
            requires
                divisor == b_significand * scale,
                b_significand > 0,
                scale > 0,
        ;
        let whole = count / divisor;
        let rest = count % divisor;
        proof {
            let k = pow2((a_step + 150) as nat) as int;
            lemma2_to64();
            lemma_pow2_pos((a_step + 150) as nat);
            lemma_pow2_adds(raise as nat, (a_step + 150) as nat);
            assert(count == whole * divisor + rest) by (nonlinear_arith)
                requires
                    whole == count / divisor,
                    rest == count % divisor,
                    divisor > 0,
            ;
            assert(pow2(0) * d == divisor * k) by (nonlinear_arith)
                requires
                    pow2(0) == 1,
                    d == b_significand * pow2((b_step - 1) as nat),
                    pow2((b_step - 1) as nat) == pow2(raise as nat) * k,
                    divisor == b_significand * pow2(raise as nat),
            ;
            lemma_division(count as int, divisor as int, whole as int, rest as int, k);
            assert(whole <= count) by (nonlinear_arith)
                requires
                    count == whole * divisor + rest,
                    divisor >= 1,
                    rest >= 0,
                    whole >= 0,
            ;
        }
        round(whole, rest != 0, 1, Ghost(n), Ghost(d))
    };
    proof {
        lemma_rounded_is(n, d, r);
    }
    r
}

/// The quotient of a finite number by one that is finite and positive.
pub fn divided_signed(a: u32, b: u32) -> (r: u32)
    requires
        is_finite(a),
        0 < b < 0x7f80_0000,
    ensures
        r == signed_quotient(a, b),
        magnitude(r) == quotient(magnitude(a) as u32, b),
        magnitude(r) <= 0x7f80_0000,
{
    if a >= 0x8000_0000 {
        divided(a - 0x8000_0000, b) + 0x8000_0000
    } else {
        divided(a, b)
    }
}

/// The sum of two finite numbers of any sign.
pub fn plus_signed(a: u32, b: u32) -> (r: u32)
    requires
        is_finite(a),
        is_finite(b),
    ensures
        r == signed_sum(a, b),
        magnitude(r) <= 0x7f80_0000,
{
    let size_a = a % 0x8000_0000;
    let size_b = b % 0x8000_0000;
    let negative_a = a >= 0x8000_0000;
    let negative_b = b >= 0x8000_0000;
    if negative_a == negative_b {
        let size = plus(size_a, size_b);
        if negative_a {
            size + 0x8000_0000
        } else {
            size
        }
    } else if size_a == size_b {
        0
    } else if size_a > size_b {
        let size = minus(size_a, size_b);
        if negative_a {
            size + 0x8000_0000
        } else {
            size
        }
    } else {
        let size = minus(size_b, size_a);
        if negative_b {
            size + 0x8000_0000
        } else {
            size
        }
    }
}

/// The whole number `n` as a single-precision number.
pub fn from_integer(n: u64) -> (r: u32)
    ensures
        r == integer(n),
        r < 0x7f80_0000,
{
    let ghost x = n * pow2(149);
    proof {
        lemma2_to64();
        lemma_pow2_pos(149);
        assert((4 * n) * (pow2(149) * 1) == 4 * x) by (nonlinear_arith)
            requires
                x == n * pow2(149),
        ;
        assert((4 * n + 1) * (pow2(149) * 1) > 4 * x) by (nonlinear_arith)
            requires
                x == n * pow2(149),
                pow2(149) > 0,
        ;
    }
    let r = pack(4 * (n as u128), false, 150, Ghost(x), Ghost(1));
    proof {
        lemma_rounded_is(x, 1, r);
        // a whole number below 2^64 is below 2^127
        lemma_pow2_adds(23, 126);
        lemma_pow2_adds(64, 62);
        lemma_pow2_adds(126, 23);
        lemma_pow2_adds(64, 149);
        lemma_pow2_strictly_increases(213, 276);
        let bound = 0x7f00_0000u32;
        assert(units(bound) == 0x80_0000 * pow2(253)) by {
            reveal(units);
            assert(exponent(bound) == 254);
            assert(fraction(bound) == 0);
        }
        lemma_pow2_adds(23, 253);
        assert(x <= units(bound) * 1) by (nonlinear_arith)
            requires
                x == n * pow2(149),
                n < pow2(64),
                pow2(213) == pow2(64) * pow2(149),
                pow2(213) < pow2(276),
                units(bound) == pow2(276),
                pow2(149) > 0,
        ;
        lemma_rounded_below(x, 1, r, bound);
    }
    r
}

/// The whole part of a number, as a conversion to a 64-bit whole number
/// gives it.
pub fn truncate(x: u32) -> (r: u64)
    ensures
        r == truncated(x),
{
    if x >= 0x8000_0000 || x > INFINITY {
        return 0;
    }
    proof {
        lemma2_to64();
        lemma2_to64_rest();
        lemma_pow2_pos(149);
    }
    if x == INFINITY {
        proof {
            reveal(units);
            assert(scaled_magnitude(x) == 0x80_0000 * pow2(254)) by {
                assert(exponent(x) == 255);
                assert(fraction(x) == 0);
            }
            lemma_pow2_adds(105, 149);
            lemma_pow2_adds(64, 41);
            lemma_pow2_pos(105);
            assert(scaled_magnitude(x) == (0x80_0000 * pow2(105)) * pow2(149)) by (nonlinear_arith)
                requires
                    scaled_magnitude(x) == 0x80_0000 * pow2(254),
                    pow2(254) == pow2(105) * pow2(149),
            ;
            lemma_div_by_multiple(
                (0x80_0000 * pow2(105)) as int,
                pow2(149) as int,
            );
            assert(0x80_0000 * pow2(105) > u64::MAX) by (nonlinear_arith)
                requires
                    pow2(105) == pow2(64) * pow2(41),
                    pow2(64) == 0x1_0000_0000_0000_0000,
                    pow2(41) > 0,
            ;
        }
        return u64::MAX;
    }
    let (step, significand) = parts(x);
    proof {
        lemma_significand(x);
    }
    if step >= 150 {
        let up = step - 150;
        proof {
            lemma_pow2_adds(up as nat, 149);
            lemma_pow2_pos(up as nat);
            assert(scaled_magnitude(x) == (significand * pow2(up as nat)) * pow2(149))
                by (nonlinear_arith)
                requires
                    scaled_magnitude(x) == significand * pow2((step - 1) as nat),
                    pow2((step - 1) as nat) == pow2(up as nat) * pow2(149),
            ;
            assert(significand * pow2(up as nat) >= 0) by (nonlinear_arith)
                requires
                    significand >= 0,
                    pow2(up as nat) > 0,
            ;
            lemma_div_by_multiple(
                (significand * pow2(up as nat)) as int,
                pow2(149) as int,
            );
        }
        if up >= 41 {
            proof {
                if up > 41 {
                    lemma_pow2_strictly_increases(41, up as nat);
                }
                assert(significand * pow2(up as nat) > u64::MAX) by (nonlinear_arith)
                    requires
                        significand >= 0x80_0000,
                        pow2(up as nat) >= 0x200_0000_0000,
                ;
            }
            u64::MAX
        } else {
            let scale = power_of_two(up);
            proof {
                if up < 40 {
                    lemma_pow2_strictly_increases(up as nat, 40);
                }
            }
            assert(significand * scale <= 0xff_ffff * 0x100_0000_0000) by (nonlinear_arith)
                requires
                    significand <= 0xff_ffff,
                    scale <= 0x100_0000_0000,
            ;
            (significand as u128 * scale) as u64
        }
    } else {
        let down = 150 - step;
        proof {
            lemma_pow2_adds((step - 1) as nat, down as nat);
            lemma_pow2_pos((step - 1) as nat);
            lemma_pow2_pos(down as nat);
            lemma_div_multiples_vanish_quotient(
                pow2((step - 1) as nat) as int,
                significand as int,
                pow2(down as nat) as int,
            );
            assert(scaled_magnitude(x) == pow2((step - 1) as nat) * significand)
                by (nonlinear_arith)
                requires
                    scaled_magnitude(x) == significand * pow2((step - 1) as nat),
            ;
        }
        if down >= 24 {
            proof {
                if down > 24 {
                    lemma_pow2_strictly_increases(24, down as nat);
                }
                lemma_basic_div(
                    significand as int,
                    pow2(down as nat) as int,
                );
            }
            0
        } else {
            let scale = power_of_two(down);
            (significand as u128 / scale) as u64
        }
    }
}

/// The whole part of a number that is finite and not negative.
pub fn floor(x: u32) -> (r: u32)
    requires
        x < 0x7f80_0000,
    ensures
        r == floored(x),
        r <= x,
{
    if x >= 0x4b00_0000 {
        x
    } else {
        let whole = truncate(x);
        proof {
            let n = whole * pow2(149);
            lemma_pow2_pos(149);
            lemma_significand(x);
            assert(scaled_magnitude(x) >= 0) by (nonlinear_arith)
                requires
                    scaled_magnitude(x) == significand(x) * pow2((step(x) - 1) as nat),
                    significand(x) >= 0,
            ;
            lemma_fundamental_div_mod(
                scaled_magnitude(x),
                pow2(149) as int,
            );
            lemma_div_pos_is_pos(scaled_magnitude(x), pow2(149) as int);
            assert(whole <= scaled_magnitude(x) / (pow2(149) as int));
            assert(n <= units(x) * 1) by (nonlinear_arith)
                requires
                    n == whole * pow2(149),
                    0 <= whole <= scaled_magnitude(x) / (pow2(149) as int),
                    scaled_magnitude(x) == pow2(149) * (scaled_magnitude(x) / (pow2(149) as int))
                        + scaled_magnitude(x) % (pow2(149) as int),
                    scaled_magnitude(x) % (pow2(149) as int) >= 0,
                    units(x) == scaled_magnitude(x),
                    pow2(149) > 0,
            ;
            assert(n >= 0) by (nonlinear_arith)
                requires
                    n == whole * pow2(149),
                    whole >= 0,
            ;
            lemma_rounded_exists(n, 1);
            lemma_rounded_below(n, 1, integer(whole), x);
        }
        from_integer(whole)
    }
}

/// A sum is at least as large as each of its two numbers, and grows with
/// them.
pub proof fn lemma_sum_monotone(a: u32, larger_a: u32, b: u32, larger_b: u32)
    requires
        a <= larger_a <= 0x7f80_0000,
        b <= larger_b <= 0x7f80_0000,
    ensures
        sum(a, b) <= sum(larger_a, larger_b) <= 0x7f80_0000,
        a <= sum(a, b),
        b <= sum(a, b),
{
    let n = units(a) + units(b);
    let larger = units(larger_a) + units(larger_b);
    lemma_units_at_most(a, larger_a);
    lemma_units_at_most(b, larger_b);
    lemma_units_at_most(0, a);
    lemma_units_at_most(0, b);
    lemma_rounded_exists(n, 1);
    lemma_rounded_exists(larger, 1);
    lemma_rounded_monotone(n, larger, 1, sum(a, b), sum(larger_a, larger_b));
    lemma_rounded_above(n, 1, sum(a, b), a);
    lemma_rounded_above(n, 1, sum(a, b), b);
}

/// A number is at most as large as another when its pattern is.
pub proof fn lemma_units_at_most(a: u32, b: u32)
    requires
        a <= b <= 0x7f80_0000,
    ensures
        scaled_magnitude(a) <= scaled_magnitude(b),
        units(a) == scaled_magnitude(a),
        units(b) == scaled_magnitude(b),
        scaled_magnitude(a) >= 0,
{
    reveal(units);
    if a < b {
        lemma_magnitude_order(a, b);
    }
    if a > 0 {
        lemma_magnitude_order(0, a);
    }
}

/// The number one stands for 2^149 units.
pub proof fn lemma_units_of_one()
    ensures
        units(ONE) == pow2(149),
        scaled_magnitude(ONE) == pow2(149),
{
    reveal(units);
    lemma2_to64();
    lemma_pow2_adds(23, 126);
    assert(exponent(ONE) == 127);
    assert(fraction(ONE) == 0);
}

/// The quotient of a number by one that is at least as large is at most 1,
/// and that of a positive number by itself is 1.
pub proof fn lemma_quotient_within(a: u32, peak: u32)
    requires
        a <= peak,
        0 < peak < 0x7f80_0000,
    ensures
        quotient(a, peak) <= ONE,
        a == peak ==> quotient(a, peak) == ONE,
{
    let n = scaled_magnitude(a) * pow2(149);
    let d = scaled_magnitude(peak);
    lemma_units_at_most(a, peak);
    lemma_units_at_most(0, peak);
    lemma_magnitude_order(0, peak);
    lemma_units_of_one();
    lemma_pow2_pos(149);
    assert(scaled_magnitude(0) == 0);
    assert(0 <= n <= units(ONE) * d) by (nonlinear_arith)
        requires
            n == scaled_magnitude(a) * pow2(149),
            0 <= scaled_magnitude(a) <= d,
            units(ONE) == pow2(149),
            pow2(149) > 0,
    ;
    lemma_rounded_exists(n, d);
    lemma_rounded_below(n, d, quotient(a, peak), ONE);
    if a == peak {
        assert(n == units(ONE) * d) by (nonlinear_arith)
            requires
                n == d * pow2(149),
                units(ONE) == pow2(149),
        ;
        lemma_rounded_exact(n, d, ONE);
    }
}

/// The quotient of a finite number by 1 is the number.
pub proof fn lemma_quotient_by_one(a: u32)
    requires
        a < 0x7f80_0000,
    ensures
        quotient(a, ONE) == a,
{
    lemma_units_of_one();
    lemma_units_at_most(a, a);
    lemma_pow2_pos(149);
    lemma_rounded_exact(scaled_magnitude(a) * pow2(149), scaled_magnitude(ONE), a);
}

/// A whole number that is not zero is a positive number.
pub proof fn lemma_integer_positive(n: u64)
    requires
        n > 0,
    ensures
        integer(n) > 0,
{
    let x = n * pow2(149);
    lemma_pow2_pos(149);
    assert(x > 0) by (nonlinear_arith)
        requires
            x == n * pow2(149),
            n > 0,
            pow2(149) > 0,
    ;
    lemma_rounded_exists(x, 1);
    if integer(n) == 0 {
        // zero is rounded to from below half of the smallest number only
        lemma_pattern_value(1, 0);
        lemma_pattern_value(1, 1);
        lemma2_to64();
        lemma_pow2_strictly_increases(0, 149);
        assert(x >= 2) by (nonlinear_arith)
            requires
                x == n * pow2(149),
                n >= 1,
                pow2(149) >= 2,
        ;
    }
}

/// The pattern of 2^`k`, for `k` from -126 to 127.
pub open spec fn power_of_two_pattern(k: int) -> u32 {
    ((127 + k) * 0x80_0000) as u32
}

/// 2^`k` stands for 2^(149 + `k`) units.
pub proof fn lemma_units_of_power(k: int)
    requires
        -126 <= k <= 127,
    ensures
        units(power_of_two_pattern(k)) == pow2((149 + k) as nat),
        0 < power_of_two_pattern(k) < 0x7f80_0000,
{
    reveal(units);
    let bits = power_of_two_pattern(k);
    lemma2_to64();
    lemma_pow2_adds(23, (126 + k) as nat);
    assert(exponent(bits) == 127 + k);
    assert(fraction(bits) == 0);
}

/// Raising a number by octaves is multiplying it by a power of two: for a
/// positive number with a full significand, and as long as the result is
/// finite, the product with 2^`k` is the number with its exponent moved up
/// by `k`.
pub proof fn lemma_octaves_up(x: u32, k: nat)
    requires
        crate::ieee::is_positive_normal(x),
        exponent(x) + k < 255,
        k <= 127,
    ensures
        product(x, power_of_two_pattern(k as int)) == crate::ieee::scaled_by(x, k as int),
{
    let raised = crate::ieee::scaled_by(x, k as int);
    crate::ieee::lemma_scaled_up(x, k);
    lemma_units_of_power(k as int);
    lemma_pow2_adds(k, 149);
    lemma_pow2_pos(149);
    reveal(units);
    assert(units(x) * units(power_of_two_pattern(k as int)) == units(raised) * pow2(149))
        by (nonlinear_arith)
        requires
            units(raised) == units(x) * pow2(k),
            units(power_of_two_pattern(k as int)) == pow2(k) * pow2(149),
    ;
    lemma_rounded_exact(
        units(x) * units(power_of_two_pattern(k as int)),
        pow2(149) as int,
        raised,
    );
}

/// Lowering a number by octaves is dividing it by a power of two: for a
/// positive finite number with a full significand, and as long as the
/// result has a full significand too, the quotient by 2^`k` is the number
/// with its exponent moved down by `k`.
pub proof fn lemma_octaves_down(x: u32, k: nat)
    requires
        crate::ieee::is_positive_normal(x),
        is_finite(x),
        exponent(x) - k >= 1,
        k <= 127,
    ensures
        quotient(x, power_of_two_pattern(k as int)) == crate::ieee::scaled_by(x, -(k as int)),
{
    let lowered = crate::ieee::scaled_by(x, -(k as int));
    crate::ieee::lemma_scaled_down(x, k);
    lemma_units_of_power(k as int);
    lemma_pow2_adds(k, 149);
    lemma_pow2_pos((149 + k) as nat);
    reveal(units);
    assert(units(x) * pow2(149) == units(lowered) * units(power_of_two_pattern(k as int)))
        by (nonlinear_arith)
        requires
            units(lowered) * pow2(k) == units(x),
            units(power_of_two_pattern(k as int)) == pow2(k) * pow2(149),
    ;
    lemma_rounded_exact(
        units(x) * pow2(149),
        units(power_of_two_pattern(k as int)),
        lowered,
    );
}

} // verus!
