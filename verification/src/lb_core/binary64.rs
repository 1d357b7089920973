//! Double-precision arithmetic on non-negative values, carried out in integers.
//!
//! A double is a whole number of at most 53 binary digits times a power of two.
//! Rounding to the nearest such value, ties to the even one, is all that is
//! needed to scale weights exactly as the hardware would.

use vstd::prelude::*;

verus! {

/// The whole number nearest to `a / b`; of two equally near ones, the even one.
pub open spec fn nearest(a: int, b: int) -> int {
    let q = a / b;
    let r = a % b;
    if 2 * r < b || (2 * r == b && q % 2 == 0) {
        q
    } else {
        q + 1
    }
}

/// The smallest `unit * 2^k` such that `n` is less than `2^53` times it.
pub open spec fn grain_from(n: int, unit: int) -> int
    decreases (if n > unit { n - unit } else { 0 }),
{
    if unit <= 0 || n < unit * 0x20_0000_0000_0000 {
        unit
    } else {
        grain_from(n, 2 * unit)
    }
}

/// The double nearest to the whole number `n`.
pub open spec fn double_of(n: int) -> int {
    nearest(n, grain_from(n, 1)) * grain_from(n, 1)
}

/// The smallest `p * 2^k` that is at least `x`.
pub open spec fn power_from(x: int, p: int) -> int
    decreases (if x > p { x - p } else { 0 }),
{
    if p <= 0 || p >= x {
        p
    } else {
        power_from(x, 2 * p)
    }
}

/// The unit of the double nearest to `4096 / t`: that double is a whole number
/// of 53 binary digits divided by this power of two.
pub open spec fn quotient_unit(t: int) -> int {
    power_from(t * 0x100_0000_0000, 1)
}

/// The 53 binary digits of the double nearest to `4096 / t`.
pub open spec fn quotient_digits(t: int) -> int {
    nearest(4096 * quotient_unit(t), t)
}

/// `round(w * (4096 / total))` in doubles, halves rounded up.
pub open spec fn scaled_round(w: int, total: int) -> int {
    let t = double_of(total);
    let unit = quotient_unit(t);
    (2 * double_of(w * quotient_digits(t)) + unit) / (2 * unit)
}

pub proof fn lemma_nearest_bounds(a: int, b: int)
    requires
        a >= 0,
        b > 0,
    ensures
        nearest(a, b) >= 0,
        2 * (nearest(a, b) * b) <= 2 * a + b,
        2 * (nearest(a, b) * b) >= 2 * a - b,
{
    let q = a / b;
    let r = a % b;
    assert(a == q * b + r && 0 <= r < b && q >= 0) by (nonlinear_arith)
        requires
            a >= 0,
            b > 0,
            q == a / b,
            r == a % b,
    ;
    assert((q + 1) * b == q * b + b) by (nonlinear_arith);
}

pub proof fn lemma_grain_bounds(n: int, unit: int)
    requires
        unit > 0,
        n >= 0,
    ensures
        grain_from(n, unit) >= unit,
        n < grain_from(n, unit) * 0x20_0000_0000_0000,
        grain_from(n, unit) == unit || grain_from(n, unit) * 0x10_0000_0000_0000 <= n,
    decreases (if n > unit { n - unit } else { 0 }),
{
    if n >= unit * 0x20_0000_0000_0000 {
        lemma_grain_bounds(n, 2 * unit);
    }
}

pub proof fn lemma_power_bounds(x: int, p: int)
    requires
        p > 0,
        x > p,
    ensures
        x <= power_from(x, p) < 2 * x,
    decreases x - p,
{
    if 2 * p < x {
        lemma_power_bounds(x, 2 * p);
    } else {
        assert(power_from(x, 2 * p) == 2 * p);
    }
}

/// Rounding to a double changes a value by less than half of it.
pub proof fn lemma_double_bounds(n: int)
    requires
        n >= 0,
    ensures
        double_of(n) <= 2 * n,
        2 * double_of(n) >= n,
        n < 0x20_0000_0000_0000 ==> double_of(n) == n,
{
    lemma_grain_bounds(n, 1);
    let u = grain_from(n, 1);
    lemma_nearest_bounds(n, u);
    if u == 1 {
        assert(nearest(n, 1) == n);
        assert(n * 1 == n);
    }
}

/// Scaling keeps a share of a total within a small multiple of 4096.
pub proof fn lemma_scaled_round_bound(w: int, total: int)
    requires
        0 <= w <= total,
        4096 < total <= u64::MAX,
    ensures
        0 <= scaled_round(w, total) <= 0x8000,
{
    let t = double_of(total);
    lemma_double_bounds(total);
    let unit = quotient_unit(t);
    lemma_power_bounds(t * 0x100_0000_0000, 1);
    let q = quotient_digits(t);
    lemma_nearest_bounds(4096 * unit, t);
    assert(w * q >= 0) by (nonlinear_arith)
        requires
            w >= 0,
            q >= 0,
    ;
    lemma_double_bounds(w * q);
    let d = double_of(w * q);
    // 2 q t <= 8192 unit + t, and w <= 2 t.
    assert(w * q <= 16384 * unit) by (nonlinear_arith)
        requires
            2 * (q * t) <= 2 * (4096 * unit) + t,
            t * 0x100_0000_0000 <= unit,
            w <= 2 * t,
            w >= 0,
            q >= 0,
            t > 0,
    {
        assert(w * q <= 2 * t * q);
    }
    assert((2 * d + unit) / (2 * unit) <= 0x8000) by (nonlinear_arith)
        requires
            d <= 0x8000 * unit,
            unit > 0,
    ;
    assert((2 * d + unit) / (2 * unit) >= 0) by (nonlinear_arith)
        requires
            d >= 0,
            unit > 0,
    ;
}

/// [`nearest`], computed.
pub fn nearest_whole(a: u128, b: u128) -> (r: u128)
    requires
        0 < b < 0x4000_0000_0000_0000_0000_0000_0000_0000,
    ensures
        r == nearest(a as int, b as int),
{
    let q: u128 = a / b;
    let rest: u128 = a % b;
    if 2 * rest < b || (2 * rest == b && q % 2 == 0) {
        q
    } else {
        assert(q < u128::MAX) by (nonlinear_arith)
            requires
                q == a / b,
                rest == a % b,
                2 * rest >= b,
                b > 0,
                a <= u128::MAX,
        {
            assert(a == q * b + rest);
            assert(q * b >= q);
        }
        q + 1
    }
}

/// [`double_of`], computed.
fn double_whole(n: u128) -> (r: u128)
    requires
        n < 0x0100_0000_0000_0000_0000_0000_0000_0000,
    ensures
        r == double_of(n as int),
{
    let mut unit: u128 = 1;
    while n >= unit * 0x20_0000_0000_0000
        invariant
            0 < unit,
            unit <= n || unit == 1,
            unit * 0x10_0000_0000_0000 <= n || unit == 1,
            n < 0x0100_0000_0000_0000_0000_0000_0000_0000,
            grain_from(n as int, unit as int) == grain_from(n as int, 1),
        decreases n - unit,
    {
        unit = 2 * unit;
    }
    proof {
        lemma_double_bounds(n as int);
    }
    nearest_whole(n, unit) * unit
}

/// [`scaled_round`], computed.
pub fn scale_weight(w: u32, total: u64) -> (r: u64)
    requires
        w <= total,
        4096 < total,
    ensures
        r == scaled_round(w as int, total as int),
        r <= 0x8000,
{
    let t: u128 = double_whole(total as u128);
    proof {
        lemma_double_bounds(total as int);
        lemma_power_bounds(t * 0x100_0000_0000, 1);
    }
    let goal: u128 = t * 0x100_0000_0000;
    let mut unit: u128 = 1;
    while unit < goal
        invariant
            0 < unit,
            goal < 0x0400_0000_0000_0000_0000_0000_0000,
            unit < 2 * goal,
            goal == t * 0x100_0000_0000,
            power_from(goal as int, unit as int) == power_from(goal as int, 1),
        decreases 2 * goal - unit,
    {
        unit = 2 * unit;
    }
    assert(unit == quotient_unit(t as int));
    let q: u128 = nearest_whole(4096 * unit, t);
    proof {
        lemma_nearest_bounds(4096 * unit, t as int);
        assert(q <= 0x80_0000_0000_0000) by (nonlinear_arith)
            requires
                2 * (q * t) <= 2 * (4096 * unit) + t,
                unit < 2 * (t * 0x100_0000_0000),
                t > 0,
                q >= 0,
        ;
        assert(w * q <= 0xffff_ffff * 0x80_0000_0000_0000) by (nonlinear_arith)
            requires
                0 <= w <= 0xffff_ffff,
                0 <= q <= 0x80_0000_0000_0000,
        ;
        lemma_double_bounds(w * q);
        lemma_scaled_round_bound(w as int, total as int);
    }
    let p: u128 = double_whole((w as u128) * q);
    let r: u128 = (2 * p + unit) / (2 * unit);
    r as u64
}

/// The unit of the double nearest to `a / b`: that double is a whole number of 53
/// binary digits divided by this power of two, the smallest by which `a` must be
/// multiplied to be `2^52` times `b` at least.
pub open spec fn ratio_unit(a: int, b: int) -> int {
    power_from((b * 0x10_0000_0000_0000 + a - 1) / a, 1)
}

/// The binary digits of the double nearest to `a / b`.
pub open spec fn ratio_digits(a: int, b: int) -> int {
    nearest(a * ratio_unit(a, b), b)
}

/// How many `1 / parts` there are in the double nearest to `a / b`, to the nearest
/// whole number.
pub open spec fn ratio_in(a: int, b: int, parts: int) -> int {
    nearest(ratio_digits(a, b) * parts, ratio_unit(a, b))
}

/// A ratio in parts of a whole is no more than a few times what it exactly is.
pub proof fn lemma_ratio_bounds(a: int, b: int, parts: int)
    requires
        0 < a <= b * 0x10_0000_0000_0000,
        0 < b,
        0 <= parts,
    ensures
        0 <= ratio_in(a, b, parts),
        ratio_in(a, b, parts) * b <= 4 * a * parts + 4 * b,
{
    let g = (b * 0x10_0000_0000_0000 + a - 1) / a;
    let u = ratio_unit(a, b);
    let d = ratio_digits(a, b);
    assert(g >= 1) by (nonlinear_arith)
        requires
            g == (b * 0x10_0000_0000_0000 + a - 1) / a,
            0 < a <= b * 0x10_0000_0000_0000,
    ;
    if g > 1 {
        lemma_power_bounds(g, 1);
    }
    assert(u >= g);
    assert(a * u >= b * 0x10_0000_0000_0000) by (nonlinear_arith)
        requires
            g == (b * 0x10_0000_0000_0000 + a - 1) / a,
            u >= g,
            0 < a,
            0 < b,
    {
        assert(a * g >= b * 0x10_0000_0000_0000);
    }
    assert(a * u >= 0) by (nonlinear_arith)
        requires
            a > 0,
            u > 0,
    ;
    lemma_nearest_bounds(a * u, b);
    // 2 d b <= 2 a u + b <= 3 a u
    assert(2 * (d * b) <= 3 * (a * u));
    assert(d * parts >= 0) by (nonlinear_arith)
        requires
            d >= 0,
            parts >= 0,
    ;
    lemma_nearest_bounds(d * parts, u);
    let r = ratio_in(a, b, parts);
    assert(2 * (r * u) <= 2 * (d * parts) + u);
    assert(r * b <= 4 * a * parts + 4 * b) by (nonlinear_arith)
        requires
            2 * (r * u) <= 2 * (d * parts) + u,
            2 * (d * b) <= 3 * (a * u),
            u > 0,
            b > 0,
            a > 0,
            parts >= 0,
            r >= 0,
    {
        // multiply by b, then divide by u
        assert(2 * (r * u) * b <= 2 * (d * parts) * b + u * b);
        assert(2 * (d * parts) * b == (2 * (d * b)) * parts);
        assert((2 * (d * b)) * parts <= 3 * (a * u) * parts);
        assert((2 * (r * b)) * u <= (3 * a * parts + b) * u);
        assert(2 * (r * b) <= 3 * a * parts + b);
    }
}

/// [`ratio_in`], computed.
pub fn ratio_parts(a: u128, b: u64, parts: u64) -> (r: u128)
    requires
        0 < a,
        0 < b <= 0x1_0000_0000,
        a <= b * 0x10_0000_0000_0000,
        parts <= 0x4000_0000,
    ensures
        r == ratio_in(a as int, b as int, parts as int),
{
    let whole: u128 = (b as u128) * 0x10_0000_0000_0000;
    let top: u128 = a;
    let goal: u128 = (whole + top - 1) / top;
    assert(goal >= 1 && goal * top <= whole + top - 1) by (nonlinear_arith)
        requires
            goal == (whole + top - 1) / (top as int),
            0 < top <= whole,
    ;
    assert(goal <= goal * top) by (nonlinear_arith)
        requires
            goal >= 1,
            top >= 1,
    ;
    let mut unit: u128 = 1;
    while unit < goal
        invariant
            0 < unit,
            goal <= 0x20_0000_0000_0000_0000_0000,
            unit < 2 * goal,
            power_from(goal as int, unit as int) == power_from(goal as int, 1),
        decreases 2 * goal - unit,
    {
        unit = 2 * unit;
    }
    assert(unit == ratio_unit(a as int, b as int));
    assert(top * unit <= 4 * whole) by (nonlinear_arith)
        requires
            unit < 2 * goal,
            goal * top <= whole + top - 1,
            0 < top <= whole,
            0 < unit,
    ;
    let scaled: u128 = top * unit;
    let digits: u128 = nearest_whole(scaled, b as u128);
    proof {
        lemma_nearest_bounds(scaled as int, b as int);
        assert(digits <= 0x80_0000_0000_0000) by (nonlinear_arith)
            requires
                2 * (digits * b) <= 2 * scaled + b,
                scaled <= 4 * (b * 0x10_0000_0000_0000),
                b > 0,
        ;
        assert(digits * parts <= 0x80_0000_0000_0000 * 0x4000_0000) by (nonlinear_arith)
            requires
                0 <= digits <= 0x80_0000_0000_0000,
                0 <= parts <= 0x4000_0000,
        ;
    }
    nearest_whole(digits * (parts as u128), unit)
}

/// The double nearest to `a / b`, as a whole number and what to divide it by.
pub open spec fn rounded(a: int, b: int) -> (int, int) {
    if a <= 0 {
        (0, 1)
    } else if a >= b * 0x20_0000_0000_0000 {
        (nearest(a, grain_from(a, b)) * (grain_from(a, b) / b), 1)
    } else {
        (ratio_digits(a, b), ratio_unit(a, b))
    }
}

/// The whole part of the double nearest to `a / b`.
pub open spec fn ratio_floor(a: int, b: int) -> int {
    rounded(a, b).0 / rounded(a, b).1
}

/// [`rounded`], computed.
pub fn rounded_ratio(a: u128, b: u128) -> (r: (u128, u128))
    requires
        a <= 0x100_0000_0000_0000_0000_0000_0000_0000,
        0 < b <= 0x2_0000_0000_0000_0000,
    ensures
        (r.0 as int, r.1 as int) == rounded(a as int, b as int),
        r.1 > 0,
        a < b * 0x20_0000_0000_0000 ==> r.0 <= 0x80_0000_0000_0000,
        a >= b * 0x20_0000_0000_0000 ==> r.0 <= 2 * a && r.1 == 1,
        a >= b ==> r.1 <= 0x20_0000_0000_0000,
{
    if a == 0 {
        return (0, 1);
    }
    if a >= b * 0x20_0000_0000_0000 {
        (wide_ratio(a, b), 1)
    } else {
        narrow_ratio(a, b)
    }
}

/// [`ratio_floor`], computed, as far as 64 bits hold it.
pub fn ratio_whole(a: u128, b: u128) -> (r: u64)
    requires
        a <= 0x100_0000_0000_0000_0000_0000_0000_0000,
        0 < b <= 0x2_0000_0000_0000_0000,
    ensures
        r == (if ratio_floor(a as int, b as int) > u64::MAX {
            u64::MAX as int
        } else {
            ratio_floor(a as int, b as int)
        }),
{
    let (top, unit): (u128, u128) = rounded_ratio(a, b);
    let whole: u128 = top / unit;
    if whole > u64::MAX as u128 {
        u64::MAX
    } else {
        whole as u64
    }
}

/// A ratio of more than 53 binary digits.
fn wide_ratio(a: u128, b: u128) -> (r: u128)
    requires
        b * 0x20_0000_0000_0000 <= a <= 0x100_0000_0000_0000_0000_0000_0000_0000,
        0 < b,
    ensures
        r == rounded(a as int, b as int).0,
        r <= 2 * a,
{
    let mut times: u128 = 1;
    let mut unit: u128 = b;
    while a >= unit * 0x20_0000_0000_0000
        invariant
            0 < b <= unit <= a,
            0 < times,
            unit == b * times,
            unit * 0x10_0000_0000_0000 <= a,
            a <= 0x100_0000_0000_0000_0000_0000_0000_0000,
            grain_from(a as int, unit as int) == grain_from(a as int, b as int),
        decreases a - unit,
    {
        assert(2 * unit == b * (2 * times)) by (nonlinear_arith)
            requires
                unit == b * times,
        ;
        assert(times <= unit) by (nonlinear_arith)
            requires
                unit == b * times,
                b >= 1,
                times > 0,
        ;
        unit = 2 * unit;
        times = 2 * times;
    }
    let near: u128 = nearest_whole(a, unit);
    proof {
        lemma_nearest_bounds(a as int, unit as int);
        assert(unit as int / b as int == times) by (nonlinear_arith)
            requires
                unit == b * times,
                b > 0,
        ;
        assert(near * times <= 2 * a) by (nonlinear_arith)
            requires
                2 * (near * unit) <= 2 * a + unit,
                unit == b * times,
                unit <= a,
                b >= 1,
                near >= 0,
                times > 0,
        {
            assert(near * times <= near * (b * times));
        }
    }
    near * times
}

/// A ratio of at most 53 binary digits.
fn narrow_ratio(a: u128, b: u128) -> (r: (u128, u128))
    requires
        0 < a < b * 0x20_0000_0000_0000,
        0 < b <= 0x2_0000_0000_0000_0000,
    ensures
        (r.0 as int, r.1 as int) == rounded(a as int, b as int),
        r.1 > 0,
        r.0 <= 0x80_0000_0000_0000,
        a >= b ==> r.1 <= 0x20_0000_0000_0000,
{
    let whole: u128 = b * 0x10_0000_0000_0000;
    let goal: u128 = (whole + a - 1) / a;
    assert(goal >= 1 && goal * a <= whole + a - 1) by (nonlinear_arith)
        requires
            goal == (whole + a - 1) / (a as int),
            0 < a,
            0 < whole,
    ;
    assert(goal <= goal * a) by (nonlinear_arith)
        requires
            goal >= 1,
            a >= 1,
    ;
    assert(a >= b ==> goal <= 0x10_0000_0000_0000) by {
        if a >= b && goal > 0x10_0000_0000_0000 {
            assert(goal * a >= 0x10_0000_0000_0001 * a) by (nonlinear_arith)
                requires
                    goal >= 0x10_0000_0000_0001,
                    a > 0,
            ;
        }
    }
    let mut unit: u128 = 1;
    while unit < goal
        invariant
            0 < unit,
            goal <= 0x80_0000_0000_0000_0000_0000_0000_0000,
            unit < 2 * goal,
            power_from(goal as int, unit as int) == power_from(goal as int, 1),
        decreases 2 * goal - unit,
    {
        unit = 2 * unit;
    }
    assert(unit == ratio_unit(a as int, b as int));
    assert(a * unit <= 6 * whole) by (nonlinear_arith)
        requires
            unit < 2 * goal,
            goal * a <= whole + a - 1,
            0 < a < 2 * whole,
            0 < unit,
    ;
    let digits: u128 = nearest_whole(a * unit, b);
    proof {
        lemma_nearest_bounds(a * unit, b as int);
        assert(digits <= 0x80_0000_0000_0000) by (nonlinear_arith)
            requires
                2 * (digits * b) <= 2 * (a * unit) + b,
                a * unit <= 6 * (b * 0x10_0000_0000_0000),
                b > 0,
        ;
    }
    (digits, unit)
}

/// A whole number as the double nearest to it.
pub fn nearest_double(n: u128) -> (r: u128)
    requires
        n < 0x0100_0000_0000_0000_0000_0000_0000_0000,
    ensures
        r == double_of(n as int),
{
    double_whole(n)
}

} // verus!
