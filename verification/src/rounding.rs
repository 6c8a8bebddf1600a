//! Rounding as IEEE 754 does it: to the nearest single-precision number,
//! and of two equally near ones to the even one.
//!
//! A number to round is not negative and is given as a ratio of two whole
//! numbers, counted in units of 2^-149, the smallest positive number; so
//! nothing but whole numbers is ever compared.

use crate::ieee::exponent;
use crate::ieee::fraction;
use crate::ieee::INFINITY;
use crate::ieee::lemma_magnitude_order;
use crate::ieee::lemma_scaled_magnitude_zero;
use crate::ieee::scaled_magnitude;
use vstd::arithmetic::power2::lemma2_to64;
use vstd::arithmetic::power2::lemma2_to64_rest;
use vstd::arithmetic::power2::lemma_pow2_adds;
use vstd::arithmetic::power2::lemma_pow2_pos;
use vstd::arithmetic::power2::lemma_pow2_strictly_increases;
use vstd::arithmetic::power2::pow2;
use vstd::prelude::*;

verus! {

/// The magnitude that a pattern stands for, counted in units of 2^-149. The
/// pattern of infinity stands for 2^128.
#[verifier::opaque]
pub open spec fn units(bits: u32) -> int {
    scaled_magnitude(bits)
}

/// Whether `r` is what the number `n / d` is rounded to. The number is
/// counted in units of 2^-149 and is not negative, and `d` is positive; `r`
/// is the pattern nearest to the number among those from zero up to
/// infinity, and of two equally near patterns the even one.
pub open spec fn is_rounded(n: int, d: int, r: u32) -> bool {
    &&& r <= 0x7f80_0000
    &&& r < 0x7f80_0000 ==> {
        let gap = units((r + 1) as u32) - units(r);
        2 * (n - units(r) * d) < gap * d || (2 * (n - units(r) * d) == gap * d && r % 2 == 0)
    }
    &&& r > 0 ==> {
        let gap = units(r) - units((r - 1) as u32);
        2 * (units(r) * d - n) < gap * d || (2 * (units(r) * d - n) == gap * d && r % 2 == 0)
    }
}

/// What the number `n / d`, counted in units of 2^-149, is rounded to.
#[verifier::opaque]
pub open spec fn rounded(n: int, d: int) -> u32 {
    choose|r: u32| is_rounded(n, d, r)
}

/// A larger pattern, up to that of infinity, stands for a larger magnitude.
pub proof fn lemma_units_order(a: u32, b: u32)
    requires
        a < b <= 0x7f80_0000,
    ensures
        0 <= units(a) < units(b),
{
    reveal(units);
    lemma_magnitude_order(a, b);
    lemma_scaled_magnitude_zero(a);
}

/// A product grows with its first factor.
pub proof fn lemma_scaled_order(a: int, b: int, w: int)
    requires
        w > 0,
    ensures
        a < b <==> a * w < b * w,
        a == b <==> a * w == b * w,
        a <= b <==> a * w <= b * w,
{
    assert(a < b ==> a * w < b * w) by (nonlinear_arith)
        requires
            w > 0,
    ;
    assert(b < a ==> b * w < a * w) by (nonlinear_arith)
        requires
            w > 0,
    ;
}

/// Some powers of two beyond 2^64.
pub proof fn lemma_large_powers()
    ensures
        pow2(76) == 0x1000_0000_0000_0000_0000,
        pow2(77) == 0x2000_0000_0000_0000_0000,
        pow2(120) == 0x100_0000_0000_0000_0000_0000_0000_0000,
{
    lemma2_to64();
    lemma2_to64_rest();
    lemma_pow2_adds(64, 12);
    lemma_pow2_adds(64, 13);
    lemma_pow2_adds(64, 56);
}

/// Only one pattern is what a number is rounded to.
pub proof fn lemma_rounded_once(n: int, d: int, r1: u32, r2: u32)
    requires
        d > 0,
        is_rounded(n, d, r1),
        is_rounded(n, d, r2),
    ensures
        r1 == r2,
{
    if r1 <= r2 {
        lemma_rounded_ordered(n, d, r1, r2);
    } else {
        lemma_rounded_ordered(n, d, r2, r1);
    }
}

proof fn lemma_rounded_ordered(n: int, d: int, low: u32, high: u32)
    requires
        d > 0,
        is_rounded(n, d, low),
        is_rounded(n, d, high),
        low <= high,
    ensures
        low == high,
{
    if low < high {
        let above = (low + 1) as u32;
        let below = (high - 1) as u32;
        lemma_units_order(low, above);
        lemma_units_order(below, high);
        if above < below {
            lemma_units_order(above, below);
        }
        lemma_scaled_order(units(low), units(above), d);
        lemma_scaled_order(units(below), units(high), d);
        lemma_scaled_order(units(above), units(below), d);
        assert((units(above) - units(low)) * d == units(above) * d - units(low) * d)
            by (nonlinear_arith);
        assert((units(high) - units(below)) * d == units(high) * d - units(below) * d)
            by (nonlinear_arith);
        lemma_not_both(
            n,
            units(low) * d,
            units(above) * d,
            units(below) * d,
            units(high) * d,
            low % 2 == 0,
            high % 2 == 0,
            high == low + 1,
        );
    }
}

/// A number that is rounded down to one value is not rounded up to a value
/// above it: `low` and `above` are neighbours, and so are `below` and
/// `high`, and either `above` is at most `below`, or the two pairs are one
/// pair, of which only one value is even.
proof fn lemma_not_both(
    x: int,
    low: int,
    above: int,
    below: int,
    high: int,
    low_even: bool,
    high_even: bool,
    adjacent: bool,
)
    requires
        low < above,
        below < high,
        !adjacent ==> above <= below,
        adjacent ==> above == high && below == low && !(low_even && high_even),
        2 * (x - low) < above - low || (2 * (x - low) == above - low && low_even),
    ensures
        !(2 * (high - x) < high - below || (2 * (high - x) == high - below && high_even)),
{
}

/// A pattern that a number is rounded to is what [`rounded`] names.
pub proof fn lemma_rounded_is(n: int, d: int, r: u32)
    requires
        d > 0,
        is_rounded(n, d, r),
    ensures
        rounded(n, d) == r,
{
    reveal(rounded);
    lemma_rounded_once(n, d, r, rounded(n, d));
}

/// A number that a pattern stands for is rounded to that pattern.
pub proof fn lemma_rounded_exact(n: int, d: int, r: u32)
    requires
        d > 0,
        r <= 0x7f80_0000,
        n == units(r) * d,
    ensures
        is_rounded(n, d, r),
        rounded(n, d) == r,
{
    if r < 0x7f80_0000 {
        lemma_units_order(r, (r + 1) as u32);
        lemma_scaled_order(0, units((r + 1) as u32) - units(r), d);
    }
    if r > 0 {
        lemma_units_order((r - 1) as u32, r);
        lemma_scaled_order(0, units(r) - units((r - 1) as u32), d);
    }
    assert(is_rounded(n, d, r));
    lemma_rounded_is(n, d, r);
}

/// A number that is at most what a pattern stands for is rounded to at most
/// that pattern.
pub proof fn lemma_rounded_below(n: int, d: int, r: u32, bound: u32)
    requires
        d > 0,
        bound <= 0x7f80_0000,
        n <= units(bound) * d,
        is_rounded(n, d, r),
    ensures
        r <= bound,
{
    if r > bound {
        let below = (r - 1) as u32;
        lemma_units_order(below, r);
        if bound < below {
            lemma_units_order(bound, below);
        }
        lemma_scaled_order(units(bound), units(below), d);
        lemma_scaled_order(units(below), units(r), d);
        assert((units(r) - units(below)) * d == units(r) * d - units(below) * d)
            by (nonlinear_arith);
    }
}

/// A number that is at least what a pattern stands for is rounded to at
/// least that pattern.
pub proof fn lemma_rounded_above(n: int, d: int, r: u32, bound: u32)
    requires
        d > 0,
        bound <= 0x7f80_0000,
        n >= units(bound) * d,
        is_rounded(n, d, r),
    ensures
        r >= bound,
{
    if r < bound {
        let above = (r + 1) as u32;
        lemma_units_order(r, above);
        if above < bound {
            lemma_units_order(above, bound);
        }
        lemma_scaled_order(units(above), units(bound), d);
        lemma_scaled_order(units(r), units(above), d);
        assert((units(above) - units(r)) * d == units(above) * d - units(r) * d)
            by (nonlinear_arith);
    }
}

/// Of two numbers, the larger is rounded to at least what the smaller is
/// rounded to.
pub proof fn lemma_rounded_monotone(n1: int, n2: int, d: int, r1: u32, r2: u32)
    requires
        d > 0,
        n1 <= n2,
        is_rounded(n1, d, r1),
        is_rounded(n2, d, r2),
    ensures
        r1 <= r2,
{
    if r1 > r2 {
        let above = (r2 + 1) as u32;
        let below = (r1 - 1) as u32;
        lemma_units_order(r2, above);
        lemma_units_order(below, r1);
        if above < below {
            lemma_units_order(above, below);
        }
        lemma_scaled_order(units(r2), units(above), d);
        lemma_scaled_order(units(below), units(r1), d);
        lemma_scaled_order(units(above), units(below), d);
        assert((units(above) - units(r2)) * d == units(above) * d - units(r2) * d)
            by (nonlinear_arith);
        assert((units(r1) - units(below)) * d == units(r1) * d - units(below) * d)
            by (nonlinear_arith);
        lemma_not_above(
            n2,
            n1,
            units(r2) * d,
            units(above) * d,
            units(below) * d,
            units(r1) * d,
            r2 % 2 == 0,
            r1 % 2 == 0,
            r1 == r2 + 1,
        );
    }
}

/// A number at most as large as one that is rounded down to a value is not
/// rounded up to a value above that.
proof fn lemma_not_above(
    x: int,
    y: int,
    low: int,
    above: int,
    below: int,
    high: int,
    low_even: bool,
    high_even: bool,
    adjacent: bool,
)
    requires
        y <= x,
        low < above,
        below < high,
        !adjacent ==> above <= below,
        adjacent ==> above == high && below == low && !(low_even && high_even),
        2 * (x - low) < above - low || (2 * (x - low) == above - low && low_even),
    ensures
        !(2 * (high - y) < high - below || (2 * (high - y) == high - below && high_even)),
{
}

/// The largest pattern up to `upto` that stands for at most `n` over `d`.
proof fn lemma_floor(n: int, d: int, upto: u32) -> (r: u32)
    requires
        d > 0,
        n >= 0,
        upto <= 0x7f80_0000,
    ensures
        r <= upto,
        units(r) * d <= n,
        r < upto ==> n < units((r + 1) as u32) * d,
    decreases upto,
{
    if upto == 0 {
        assert(units(0) == 0) by {
            reveal(units);
        }
        0
    } else if units(upto) * d <= n {
        upto
    } else {
        let r = lemma_floor(n, d, (upto - 1) as u32);
        r
    }
}

/// Every number that is not negative is rounded to some pattern, and so to
/// what [`rounded`] names.
pub proof fn lemma_rounded_exists(n: int, d: int)
    requires
        d > 0,
        n >= 0,
    ensures
        is_rounded(n, d, rounded(n, d)),
        rounded(n, d) <= 0x7f80_0000,
{
    reveal(rounded);
    let low = lemma_floor(n, d, 0x7f80_0000);
    if low > 0 {
        lemma_units_order((low - 1) as u32, low);
        lemma_scaled_order(0, units(low) - units((low - 1) as u32), d);
    }
    if low == 0x7f80_0000 {
        assert(is_rounded(n, d, low));
    } else {
        let high = (low + 1) as u32;
        let gap = units(high) - units(low);
        lemma_units_order(low, high);
        lemma_scaled_order(0, gap, d);
        assert(gap * d == units(high) * d - units(low) * d) by (nonlinear_arith)
            requires
                gap == units(high) - units(low),
        ;
        if high < 0x7f80_0000 {
            lemma_units_order(high, (high + 1) as u32);
            lemma_scaled_order(0, units((high + 1) as u32) - units(high), d);
        }
        let over = 2 * (n - units(low) * d);
        if over < gap * d || (over == gap * d && low % 2 == 0) {
            assert(is_rounded(n, d, low));
        } else {
            assert(is_rounded(n, d, high));
        }
    }
}

/// Zero is rounded to zero.
pub proof fn lemma_rounded_zero(d: int)
    requires
        d > 0,
    ensures
        is_rounded(0, d, 0),
        rounded(0, d) == 0,
{
    assert(units(0) == 0) by {
        reveal(units);
    }
    lemma_rounded_exact(0, d, 0);
}

/// The pattern with significand `q` at the exponent step `e`.
pub open spec fn pattern(e: int, q: int) -> int {
    (e - 1) * 0x80_0000 + q
}

/// The pattern with significand `q` at the exponent step `e` stands for
/// `q` times 2^(`e` - 1) units, whether `q` is that of a subnormal number,
/// of a normal one, or has just grown to the next power of two.
pub proof fn lemma_pattern_value(e: int, q: int)
    requires
        1 <= e,
        0 <= q <= 0x100_0000,
        q < 0x80_0000 ==> e == 1,
        pattern(e, q) <= 0x7f80_0000,
    ensures
        units(pattern(e, q) as u32) == q * pow2((e - 1) as nat),
        scaled_magnitude(pattern(e, q) as u32) == q * pow2((e - 1) as nat),
{
    reveal(units);
    let bits = pattern(e, q) as u32;
    lemma2_to64();
    if q < 0x80_0000 {
        assert(exponent(bits) == 0);
        assert(fraction(bits) == q);
        assert(q * pow2(0) == q);
    } else if q < 0x100_0000 {
        assert(bits == e * 0x80_0000 + (q - 0x80_0000));
        assert(exponent(bits) == e);
        assert(fraction(bits) == q - 0x80_0000);
    } else {
        assert(bits == (e + 1) * 0x80_0000);
        assert(exponent(bits) == e + 1);
        assert(fraction(bits) == 0);
        lemma_pow2_adds((e - 1) as nat, 1);
        assert(0x80_0000 * pow2(e as nat) == 0x100_0000 * pow2((e - 1) as nat)) by (nonlinear_arith)
            requires
                pow2(e as nat) == pow2((e - 1) as nat) * 2,
        ;
    }
}

/// The exponent step of a number that is finite and not negative: its
/// exponent field, and 1 for a subnormal number.
pub open spec fn step(bits: u32) -> int {
    if bits < 0x80_0000 {
        1
    } else {
        exponent(bits)
    }
}

/// The significand of a number that is finite and not negative: its
/// fraction, with the leading one unless the number is subnormal.
pub open spec fn significand(bits: u32) -> int {
    if bits < 0x80_0000 {
        bits as int
    } else {
        0x80_0000 + fraction(bits)
    }
}

/// A number that is finite and not negative is its significand times 2 to
/// its exponent step less one.
pub proof fn lemma_significand(bits: u32)
    requires
        bits < 0x7f80_0000,
    ensures
        1 <= step(bits) <= 254,
        0 <= significand(bits) < 0x100_0000,
        significand(bits) < 0x80_0000 ==> step(bits) == 1,
        step(bits) > 1 ==> significand(bits) >= 0x80_0000,
        bits == pattern(step(bits), significand(bits)),
        scaled_magnitude(bits) == significand(bits) * pow2((step(bits) - 1) as nat),
        units(bits) == scaled_magnitude(bits),
        bits == 0 <==> significand(bits) == 0,
{
    reveal(units);
    lemma_pattern_value(step(bits), significand(bits));
}

/// The exponent step and the significand of a number that is finite and
/// not negative.
pub(crate) fn parts(bits: u32) -> (r: (u32, u64))
    requires
        bits < 0x7f80_0000,
    ensures
        r.0 == step(bits),
        r.1 == significand(bits),
        1 <= r.0 <= 254,
        r.1 < 0x100_0000,
{
    proof {
        lemma_significand(bits);
    }
    if bits < 0x80_0000 {
        (1, bits as u64)
    } else {
        (bits / 0x80_0000, (bits % 0x80_0000) as u64 + 0x80_0000)
    }
}

/// Two to the power `e`.
pub(crate) fn power_of_two(e: u32) -> (r: u128)
    requires
        e <= 120,
    ensures
        r == pow2(e as nat),
        1 <= r <= 0x100_0000_0000_0000_0000_0000_0000_0000,
{
    let mut power: u128 = 1;
    let mut i: u32 = 0;
    proof {
        lemma2_to64();
        lemma_large_powers();
        lemma_pow2_pos(120);
    }
    while i < e
        invariant
            i <= e <= 120,
            power == pow2(i as nat),
            power <= pow2(120),
            pow2(120) == 0x100_0000_0000_0000_0000_0000_0000_0000,
        decreases e - i,
    {
        proof {
            lemma2_to64();
            lemma_pow2_adds(i as nat, 1);
            if i + 1 < 120 {
                lemma_pow2_strictly_increases((i + 1) as nat, 120);
            }
        }
        power = power * 2;
        i = i + 1;
    }
    proof {
        lemma_pow2_pos(e as nat);
    }
    power
}

/// The arithmetic at the heart of rounding, four times enlarged. A number
/// `n4` lies `s` whole parts of size `k` up, and less than one part
/// further; exactly there unless `sticky`. The whole parts are `q` steps of
/// `unit` and a rest, and `top` is `q`, or `q` + 1 where the number lies
/// above the middle of the step, or in the middle with `q` odd. Then `top`
/// steps are as near to the number as half a step, and in the middle of two
/// steps `top` is even.
proof fn lemma_nearest_step(
    n4: int,
    k: int,
    unit: int,
    q: int,
    rest: int,
    sticky: bool,
    top: int,
)
    requires
        k > 0,
        unit >= 4,
        unit % 2 == 0,
        0 <= rest < unit,
        0 <= q,
        (q * unit + rest) * k <= n4 < (q * unit + rest + 1) * k,
        sticky <==> n4 != (q * unit + rest) * k,
        top == if 2 * rest > unit || (2 * rest == unit && (sticky || q % 2 == 1)) {
            q + 1
        } else {
            q
        },
    ensures
        top == q + 1 ==> n4 < top * (unit * k) && (2 * (top * (unit * k) - n4) < unit * k || (2 * (
        top * (unit * k) - n4) == unit * k && top % 2 == 0)),
        top == q ==> n4 >= top * (unit * k) && (2 * (n4 - top * (unit * k)) < unit * k || (2 * (n4
            - top * (unit * k)) == unit * k && top % 2 == 0)),
{
    let g = unit * k;
    assert(g > 0) by (nonlinear_arith)
        requires
            g == unit * k,
            unit > 0,
            k > 0,
    ;
    assert((q * unit + rest) * k == q * g + rest * k) by (nonlinear_arith)
        requires
            g == unit * k,
    ;
    assert((q * unit + rest + 1) * k == q * g + rest * k + k) by (nonlinear_arith)
        requires
            g == unit * k,
    ;
    assert((q + 1) * g == q * g + g) by (nonlinear_arith);
    lemma_scaled_order(2 * rest, unit, k);
    lemma_scaled_order(2 * rest + 2, unit, k);
    assert((2 * rest) * k == 2 * (rest * k)) by (nonlinear_arith);
    assert((2 * rest + 2) * k == 2 * (rest * k) + 2 * k) by (nonlinear_arith);
    lemma_scaled_order(rest + 1, unit, k);
    assert((rest + 1) * k == rest * k + k) by (nonlinear_arith);
    assert(rest * k >= 0) by (nonlinear_arith)
        requires
            rest >= 0,
            k > 0,
    ;
    if 2 * rest < unit {
        assert(2 * rest + 2 <= unit);
    }
}

/// Rounds a number to the nearest pattern. The number is `significand`
/// quarters of 2^(`exponent` - 1) units, and less than a quarter more where
/// it is `sticky`; as a ratio it is `n` over `d`.
pub(crate) fn round(
    significand: u128,
    sticky: bool,
    exponent: u32,
    Ghost(n): Ghost<int>,
    Ghost(d): Ghost<int>,
) -> (r: u32)
    requires
        d > 0,
        1 <= exponent <= 1000,
        significand < 0x10_0000_0000_0000_0000_0000_0000,
        exponent > 1 ==> significand >= 0x200_0000,
        significand * (pow2((exponent - 1) as nat) * d) <= 4 * n < (significand + 1) * (pow2(
            (exponent - 1) as nat,
        ) * d),
        sticky <==> 4 * n != significand * (pow2((exponent - 1) as nat) * d),
    ensures
        is_rounded(n, d, r),
{
    let mut unit: u128 = 4;
    let mut shift: u32 = 2;
    proof {
        lemma2_to64();
    }
    while significand / unit >= 0x100_0000
        invariant
            unit == pow2(shift as nat),
            2 <= shift <= 77,
            4 <= unit <= 0x2000_0000_0000_0000_0000,
            significand < 0x10_0000_0000_0000_0000_0000_0000,
            shift > 2 ==> significand >= 0x80_0000 * unit,
        decreases 128 - shift,
    {
        proof {
            lemma2_to64();
            lemma_large_powers();
            lemma_pow2_adds(shift as nat, 1);
            assert(significand >= 0x100_0000 * unit) by (nonlinear_arith)
                requires
                    significand / unit >= 0x100_0000,
                    unit > 0,
            ;
            assert(unit < 0x1000_0000_0000_0000_0000);
            if shift > 76 {
                lemma_pow2_strictly_increases(76, shift as nat);
            }
            assert(shift < 76);
        }
        unit = unit * 2;
        shift = shift + 1;
    }
    let q = significand / unit;
    let rest = significand % unit;
    let up = 2 * rest > unit || (2 * rest == unit && (sticky || q % 2 == 1));
    let top: u128 = if up {
        q + 1
    } else {
        q
    };
    let bits: u128 = (exponent + shift - 3) as u128 * 0x80_0000 + top;
    let r = if bits >= 0x7f80_0000 {
        INFINITY
    } else {
        bits as u32
    };
    proof {
        let e = (exponent + shift - 2) as int;
        let w = pow2((exponent - 1) as nat) as int;
        let p = pow2((e - 1) as nat) as int;
        lemma2_to64();
        lemma_pow2_pos((exponent - 1) as nat);
        lemma_pow2_pos((e - 1) as nat);
        lemma_pow2_adds((shift - 2) as nat, (exponent - 1) as nat);
        lemma_pow2_adds((shift - 2) as nat, 2);
        assert(4 * p == unit * w) by (nonlinear_arith)
            requires
                p == pow2((shift - 2) as nat) * w,
                unit == pow2((shift - 2) as nat) * 4,
        ;
        assert(significand == q * unit + rest) by (nonlinear_arith)
            requires
                q == significand / unit,
                rest == significand % unit,
                unit > 0,
        ;
        assert(shift > 2 ==> q >= 0x80_0000) by (nonlinear_arith)
            requires
                shift > 2 ==> significand >= 0x80_0000 * unit,
                q == significand / unit,
                unit > 0,
        ;
        assert(shift == 2 && exponent > 1 ==> q >= 0x80_0000);
        assert(q >= 0x80_0000 || e == 1);
        assert(unit % 2 == 0) by {
            lemma_pow2_adds((shift - 1) as nat, 1);
        }
        let k = w * d;
        assert(k > 0) by (nonlinear_arith)
            requires
                k == w * d,
                w > 0,
                d > 0,
        ;
        lemma_nearest_step(4 * n, k, unit as int, q as int, rest as int, sticky, top as int);
        assert(unit * k == 4 * (p * d)) by (nonlinear_arith)
            requires
                4 * p == unit * w,
                k == w * d,
        ;
        lemma_round_step(n, d, e, q as int, top as int, p * d, r);
    }
    r
}

/// From steps to patterns. `top` steps of size `g`, where `g` is 2^(`e` - 1)
/// times `d`, are as near to `n` as half a step, with `top` even in the
/// middle of two steps, and `top` is `q` or `q` + 1. Then the pattern of
/// `top` at the exponent step `e`, or infinity if that pattern lies beyond,
/// is what `n` over `d` is rounded to.
proof fn lemma_round_step(n: int, d: int, e: int, q: int, top: int, g: int, r: u32)
    requires
        1 <= e,
        d > 0,
        g == pow2((e - 1) as nat) * d,
        0 <= q < 0x100_0000,
        q >= 0x80_0000 || e == 1,
        top == q || top == q + 1,
        top == q + 1 ==> 4 * n < top * (4 * g) && (2 * (top * (4 * g) - 4 * n) < 4 * g || (2 * (top
            * (4 * g) - 4 * n) == 4 * g && top % 2 == 0)),
        top == q ==> 4 * n >= top * (4 * g) && (2 * (4 * n - top * (4 * g)) < 4 * g || (2 * (4 * n
            - top * (4 * g)) == 4 * g && top % 2 == 0)),
        r == if pattern(e, top) >= 0x7f80_0000 {
            0x7f80_0000u32
        } else {
            pattern(e, top) as u32
        },
    ensures
        is_rounded(n, d, r),
{
    let p = pow2((e - 1) as nat) as int;
    lemma_pow2_pos((e - 1) as nat);
    assert(g > 0) by (nonlinear_arith)
        requires
            g == p * d,
            p > 0,
            d > 0,
    ;
    assert(top * (4 * g) == 4 * (top * g)) by (nonlinear_arith);
    assert((top * p) * d == top * g) by (nonlinear_arith)
        requires
            g == p * d,
    ;
    assert((q * p) * d == q * g) by (nonlinear_arith)
        requires
            g == p * d,
    ;
    assert((q + 1) * g == q * g + g) by (nonlinear_arith);
    assert(p * d == g);
    if pattern(e, top) > 0x7f80_0000 {
        assert(e - 1 >= 254);
        assert(units(r) == 0x80_0000 * pow2(254)) by {
            reveal(units);
            assert(exponent(r) == 255);
            assert(fraction(r) == 0);
        }
        lemma_pow2_pos(254);
        if e - 1 > 254 {
            lemma_pow2_strictly_increases(254, (e - 1) as nat);
        }
        assert(q * g >= (0x80_0000 * pow2(254)) * d) by (nonlinear_arith)
            requires
                q >= 0x80_0000,
                g == p * d,
                p >= pow2(254),
                pow2(254) > 0,
                d > 0,
        ;
        assert(n >= units(r) * d);
        lemma_units_order((r - 1) as u32, r);
        lemma_scaled_order(0, units(r) - units((r - 1) as u32), d);
    } else {
        lemma_pattern_value(e, top);
        assert(units(r) * d == top * g);
        assert(r % 2 == top % 2) by {
            assert(r == (e - 1) * 0x80_0000 + top);
        }
        if top == q + 1 {
            assert(pattern(e, q) == r - 1);
            lemma_pattern_value(e, q);
            assert((units(r) - units((r - 1) as u32)) * d == g) by (nonlinear_arith)
                requires
                    units(r) * d == q * g + g,
                    units((r - 1) as u32) * d == q * g,
            ;
            if r < 0x7f80_0000 {
                lemma_units_order(r, (r + 1) as u32);
                lemma_scaled_order(0, units((r + 1) as u32) - units(r), d);
            }
        } else {
            if r < 0x7f80_0000 {
                assert(pattern(e, q + 1) == r + 1);
                lemma_pattern_value(e, q + 1);
                assert(((q + 1) * p) * d == q * g + g) by (nonlinear_arith)
                    requires
                        g == p * d,
                ;
                assert((units((r + 1) as u32) - units(r)) * d == g) by (nonlinear_arith)
                    requires
                        units((r + 1) as u32) * d == q * g + g,
                        units(r) * d == q * g,
                ;
            }
            if r > 0 {
                lemma_units_order((r - 1) as u32, r);
                lemma_scaled_order(0, units(r) - units((r - 1) as u32), d);
            }
        }
    }
}

/// Rounds a number to the nearest pattern, as [`round`] does, whatever the
/// size of its significand: a small significand is doubled, and its exponent
/// lowered, until [`round`] takes it.
pub(crate) fn pack(
    significand: u128,
    sticky: bool,
    exponent: u32,
    Ghost(n): Ghost<int>,
    Ghost(d): Ghost<int>,
) -> (r: u32)
    requires
        d > 0,
        1 <= exponent <= 1000,
        significand < 0x10_0000_0000_0000_0000_0000_0000,
        sticky ==> exponent == 1 || significand >= 0x200_0000,
        significand * (pow2((exponent - 1) as nat) * d) <= 4 * n < (significand + 1) * (pow2(
            (exponent - 1) as nat,
        ) * d),
        sticky <==> 4 * n != significand * (pow2((exponent - 1) as nat) * d),
    ensures
        is_rounded(n, d, r),
{
    let mut raised = significand;
    let mut lowered = exponent;
    while lowered > 1 && raised < 0x200_0000
        invariant
            d > 0,
            1 <= lowered <= exponent <= 1000,
            raised < 0x10_0000_0000_0000_0000_0000_0000,
            sticky ==> lowered == 1 || raised >= 0x200_0000,
            raised * (pow2((lowered - 1) as nat) * d) <= 4 * n < (raised + 1) * (pow2(
                (lowered - 1) as nat,
            ) * d),
            sticky <==> 4 * n != raised * (pow2((lowered - 1) as nat) * d),
        decreases lowered,
    {
        proof {
            let k = pow2((lowered - 2) as nat) * d;
            lemma2_to64();
            lemma_pow2_pos((lowered - 2) as nat);
            lemma_pow2_adds(1, (lowered - 2) as nat);
            assert(k > 0) by (nonlinear_arith)
                requires
                    k == pow2((lowered - 2) as nat) * d,
                    pow2((lowered - 2) as nat) > 0,
                    d > 0,
            ;
            assert(pow2((lowered - 1) as nat) * d == 2 * k) by (nonlinear_arith)
                requires
                    pow2((lowered - 1) as nat) == 2 * pow2((lowered - 2) as nat),
                    k == pow2((lowered - 2) as nat) * d,
            ;
            assert((2 * raised) * k == raised * (2 * k)) by (nonlinear_arith);
            assert((2 * raised + 1) * k == raised * (2 * k) + k) by (nonlinear_arith);
        }
        raised = raised * 2;
        lowered = lowered - 1;
    }
    round(raised, sticky, lowered, Ghost(n), Ghost(d))
}

} // verus!
