//! Doubles that come from outside, and what arithmetic makes of them.

use vstd::prelude::*;

use crate::lb_core::binary64::{
    double_of, grain_from, lemma_double_bounds, lemma_grain_bounds, lemma_nearest_bounds,
    lemma_power_bounds, nearest, nearest_double, nearest_whole, power_from, ratio_unit, rounded,
    rounded_ratio,
};

verus! {

/// Two to the power `k`.
pub open spec fn two_to(k: nat) -> int
    decreases k,
{
    if k == 0 {
        1
    } else {
        2 * two_to((k - 1) as nat)
    }
}

/// A double that is not negative and less than `2^53`: a whole number of binary digits
/// divided by a power of two.
#[derive(Debug, Clone, Copy)]
pub struct Double {
    digits: u64,
    shift: u32,
}

/// The sign of a double in its 64-bit form, 1 for negative ones.
pub open spec fn sign_of(bits: u64) -> int {
    bits as int / 0x8000_0000_0000_0000
}

/// The exponent of a double in its 64-bit form.
pub open spec fn exponent_of(bits: u64) -> int {
    (bits as int / 0x10_0000_0000_0000) % 2048
}

/// The fraction of a double in its 64-bit form.
pub open spec fn fraction_of(bits: u64) -> int {
    bits as int % 0x10_0000_0000_0000
}

impl Double {
    /// The binary digits.
    pub closed spec fn digits(self) -> nat {
        self.digits as nat
    }

    /// The power of two that they are divided by.
    pub closed spec fn shift(self) -> nat {
        self.shift as nat
    }

    #[verifier::type_invariant]
    spec fn well_formed(self) -> bool {
        self.digits < 0x20_0000_0000_0000 && self.shift <= 1074
    }

    /// The double that 64 bits in the form of IEEE 754 stand for. Negative ones, ones from
    /// `2^53` on, infinity and what is not a number are not taken.
    #[must_use]
    pub fn from_bits(bits: u64) -> (r: Option<Self>)
        ensures
            r is Some <==> sign_of(bits) == 0 && exponent_of(bits) <= 1075,
            r matches Some(x) ==> if exponent_of(bits) == 0 {
                x.digits() == fraction_of(bits) && x.shift() == 1074
            } else {
                x.digits() == 0x10_0000_0000_0000 + fraction_of(bits) && x.shift() == 1075
                    - exponent_of(bits)
            },
    {
        let sign: u64 = bits / 0x8000_0000_0000_0000;
        let exponent: u64 = (bits / 0x10_0000_0000_0000) % 2048;
        let fraction: u64 = bits % 0x10_0000_0000_0000;
        if sign != 0 || exponent > 1075 {
            return None;
        }
        if exponent == 0 {
            Some(Self { digits: fraction, shift: 1074 })
        } else {
            Some(Self { digits: 0x10_0000_0000_0000 + fraction, shift: (1075 - exponent) as u32 })
        }
    }
}

/// One more than a double, as a double.
pub open spec fn one_more(x: Double) -> (int, int) {
    rounded(two_to(x.shift()) + x.digits(), two_to(x.shift()))
}

/// A whole number times one more than a double, in doubles.
pub open spec fn scaled_up(n: int, x: Double) -> (int, int) {
    rounded(double_of(n) * one_more(x).0, one_more(x).1)
}

/// `n * (1 + x)` in doubles, rounded down.
pub open spec fn once_more(n: int, x: Double) -> int {
    scaled_up(n, x).0 / scaled_up(n, x).1
}

/// `n * (2 + x * 2)` in doubles, rounded down. Doubling a double is exact, so it is twice
/// what `n * (1 + x)` comes to before that is rounded down.
pub open spec fn twice_more(n: int, x: Double) -> int {
    2 * scaled_up(n, x).0 / scaled_up(n, x).1
}

// ---------------------------------------------------------------------------
// Computing
// ---------------------------------------------------------------------------

proof fn lemma_two_to_splits(a: nat, b: nat)
    ensures
        two_to(a + b) == two_to(a) * two_to(b),
        two_to(a) >= 1,
    decreases a,
{
    if a > 0 {
        lemma_two_to_splits((a - 1) as nat, b);
        let (x, y) = (two_to((a - 1) as nat), two_to(b));
        assert((a + b - 1) as nat == (a - 1) as nat + b);
        assert(2 * (x * y) == (2 * x) * y) by (nonlinear_arith);
    }
}

proof fn lemma_two_to_grows(a: nat, b: nat)
    requires
        a <= b,
    ensures
        1 <= two_to(a) <= two_to(b),
    decreases b,
{
    if a < b {
        lemma_two_to_grows(a, (b - 1) as nat);
    } else if a > 0 {
        lemma_two_to_grows((a - 1) as nat, (a - 1) as nat);
    }
}

proof fn lemma_known_powers()
    ensures
        two_to(51) == 0x8_0000_0000_0000,
        two_to(52) == 0x10_0000_0000_0000,
        two_to(63) == 0x8000_0000_0000_0000,
        two_to(64) == 0x1_0000_0000_0000_0000,
        two_to(100) == 0x10_0000_0000_0000_0000_0000_0000,
{
    reveal_with_fuel(two_to, 33);
    lemma_two_to_splits(32, 19);
    lemma_two_to_splits(32, 20);
    lemma_two_to_splits(32, 31);
    lemma_two_to_splits(32, 32);
    lemma_two_to_splits(52, 48);
    lemma_two_to_splits(32, 16);
}

/// The smallest power of two from `x` on, between two that are known.
proof fn lemma_power_is(x: int, i: nat, j: nat)
    requires
        i <= j + 1,
        two_to(j) < x <= two_to(j + 1),
    ensures
        power_from(x, two_to(i)) == two_to(j + 1),
    decreases j + 1 - i,
{
    lemma_two_to_grows(i, j + 1);
    if i <= j {
        lemma_two_to_grows(i, j);
        lemma_power_is(x, i + 1, j);
    }
}

proof fn lemma_nearest_shift(k: int, r: int, b: int)
    requires
        0 <= r,
        0 < b,
        0 <= k,
        k % 2 == 0,
    ensures
        nearest(k * b + r, b) == k + nearest(r, b),
{
    assert((k * b + r) / b == k + r / b && (k * b + r) % b == r % b) by (nonlinear_arith)
        requires
            0 <= r,
            0 < b,
            0 <= k,
    ;
}

proof fn lemma_nearest_scale(x: int, y: int, c: int)
    requires
        0 <= x,
        0 < y,
        0 < c,
    ensures
        nearest(x * c, y * c) == nearest(x, y),
{
    let q = x / y;
    let r = x % y;
    assert(x == q * y + r && 0 <= r < y) by (nonlinear_arith)
        requires
            q == x / y,
            r == x % y,
            0 < y,
    ;
    assert((x * c) / (y * c) == q && (x * c) % (y * c) == r * c) by (nonlinear_arith)
        requires
            x == q * y + r,
            0 <= r < y,
            0 < c,
            0 <= q,
    {
        assert(x * c == q * (y * c) + r * c);
        assert(0 <= r * c < y * c);
    }
    assert(2 * (r * c) < y * c <==> 2 * r < y) by (nonlinear_arith)
        requires
            0 < c,
    ;
    assert(2 * (r * c) == y * c <==> 2 * r == y) by (nonlinear_arith)
        requires
            0 < c,
    ;
}

/// One more than a double that is small beside it.
proof fn lemma_one_more_than_little(d: int, s: nat)
    requires
        0 <= d < 0x20_0000_0000_0000,
        s >= 64,
    ensures
        rounded(two_to(s) + d, two_to(s)) == (
            0x10_0000_0000_0000 + nearest(d, two_to((s - 52) as nat)),
            0x10_0000_0000_0000int,
        ),
        s > 152 ==> nearest(d, two_to((s - 52) as nat)) == 0,
{
    lemma_known_powers();
    lemma_two_to_grows(64, s);
    lemma_two_to_splits((s - 52) as nat, 52);
    let b = two_to(s);
    let c = two_to((s - 52) as nat);
    let a = b + d;
    let k = 0x10_0000_0000_0000int;
    assert(b == c * k);
    lemma_two_to_grows(0, (s - 52) as nat);
    let g = (b * k + a - 1) / a;
    assert(0x8_0000_0000_0000 < g <= k) by (nonlinear_arith)
        requires
            g == (b * k + a - 1) / a,
            a == b + d,
            0 <= d < 0x20_0000_0000_0000,
            b >= 0x1_0000_0000_0000_0000,
            k == 0x10_0000_0000_0000,
    {
        assert(g * a <= b * k + a - 1 && b * k + a - 1 < g * a + a);
        if g > k {
            assert(g * a >= (k + 1) * a);
            assert((k + 1) * a == k * a + a);
            assert(k * a >= k * b);
        }
        if g <= 0x8_0000_0000_0000 {
            assert(g * a <= 0x8_0000_0000_0000 * a);
        }
    }
    lemma_power_is(g, 0, 51);
    assert(ratio_unit(a, b) == k);
    assert(a * k == k * b + d * k) by (nonlinear_arith)
        requires
            a == b + d,
    ;
    assert(d * k >= 0) by (nonlinear_arith)
        requires
            d >= 0,
            k > 0,
    ;
    lemma_nearest_shift(k, d * k, b);
    lemma_nearest_scale(d, c, k);
    if s > 152 {
        lemma_two_to_grows(100, (s - 52) as nat);
        assert(d / c == 0 && d % c == d) by (nonlinear_arith)
            requires
                0 <= d < c,
        ;
    }
}

fn power_of_two(k: u32) -> (r: u128)
    requires
        k <= 100,
    ensures
        r == two_to(k as nat),
{
    proof {
        lemma_known_powers();
    }
    let mut r: u128 = 1;
    let mut i: u32 = 0;
    while i < k
        invariant
            i <= k <= 100,
            r == two_to(i as nat),
            two_to(100) == 0x10_0000_0000_0000_0000_0000_0000,
        decreases k - i,
    {
        proof {
            lemma_two_to_grows((i + 1) as nat, 100);
        }
        r = 2 * r;
        i = i + 1;
    }
    r
}

/// [`one_more`], computed.
fn add_one(x: Double) -> (r: (u128, u128))
    ensures
        (r.0 as int, r.1 as int) == one_more(x),
        r.0 <= 0x80_0000_0000_0000,
        0 < r.1 <= 0x20_0000_0000_0000,
{
    proof {
        use_type_invariant(&x);
        lemma_known_powers();
    }
    if x.shift <= 63 {
        let unit: u128 = power_of_two(x.shift);
        proof {
            lemma_two_to_grows(x.shift as nat, 63);
        }
        rounded_ratio(unit + x.digits as u128, unit)
    } else {
        proof {
            lemma_one_more_than_little(x.digits as int, x.shift as nat);
        }
        let more: u128 = if x.shift > 152 {
            0
        } else {
            let unit: u128 = power_of_two(x.shift - 52);
            proof {
                lemma_two_to_grows((x.shift - 52) as nat, 100);
                lemma_nearest_at_most(x.digits as int, unit as int);
            }
            nearest_whole(x.digits as u128, unit)
        };
        (0x10_0000_0000_0000 + more, 0x10_0000_0000_0000)
    }
}

/// Dividing by a whole number does not give more.
proof fn lemma_nearest_at_most(a: int, b: int)
    requires
        0 <= a,
        1 <= b,
    ensures
        nearest(a, b) <= a,
{
    let q = a / b;
    let r = a % b;
    assert(a == q * b + r && 0 <= r < b && q >= 0) by (nonlinear_arith)
        requires
            q == a / b,
            r == a % b,
            1 <= b,
            0 <= a,
    ;
    assert(q * b >= q) by (nonlinear_arith)
        requires
            q >= 0,
            b >= 1,
    ;
}

/// [`once_more`] and [`twice_more`], computed.
pub fn scale_up(n: u64, x: Double) -> (r: (u128, u128))
    ensures
        r.0 == once_more(n as int, x),
        r.1 == twice_more(n as int, x),
{
    proof {
        lemma_double_bounds(n as int);
    }
    let whole: u128 = nearest_double(n as u128);
    let (digits, unit): (u128, u128) = add_one(x);
    assert(whole * digits <= 0x2_0000_0000_0000_0000 * 0x80_0000_0000_0000) by (nonlinear_arith)
        requires
            0 <= whole <= 0x2_0000_0000_0000_0000,
            0 <= digits <= 0x80_0000_0000_0000,
    ;
    let (top, below): (u128, u128) = rounded_ratio(whole * digits, unit);
    (top / below, 2 * top / below)
}

// ---------------------------------------------------------------------------
// Order
// ---------------------------------------------------------------------------

proof fn lemma_nearest_grows(a: int, c: int, b: int)
    requires
        0 <= a <= c,
        0 < b,
    ensures
        nearest(a, b) <= nearest(c, b),
{
    let (q, r) = (a / b, a % b);
    let (p, t) = (c / b, c % b);
    assert(q <= p && (q == p ==> r <= t)) by (nonlinear_arith)
        requires
            0 <= a <= c,
            0 < b,
            q == a / b,
            r == a % b,
            p == c / b,
            t == c % b,
    {
        assert(a == q * b + r && 0 <= r < b);
        assert(c == p * b + t && 0 <= t < b);
        if q > p {
            assert(q * b >= (p + 1) * b);
            assert((p + 1) * b == p * b + b);
        }
    }
}

proof fn lemma_power_at_least(x: int, p: int)
    requires
        0 < p,
    ensures
        power_from(x, p) >= p,
        power_from(x, p) >= x,
    decreases (if x > p { x - p } else { 0 }),
{
    if p < x {
        lemma_power_at_least(x, 2 * p);
    }
}

proof fn lemma_power_order(x: int, y: int, p: int)
    requires
        0 < p,
        x <= y,
    ensures
        power_from(x, p) == power_from(y, p) || 2 * power_from(x, p) <= power_from(y, p),
    decreases (if y > p { y - p } else { 0 }),
{
    if p < y {
        if p >= x {
            lemma_power_at_least(y, 2 * p);
        } else {
            lemma_power_order(x, y, 2 * p);
        }
    }
}

proof fn lemma_grain_order(x: int, y: int, unit: int)
    requires
        0 < unit,
        0 <= x <= y,
    ensures
        grain_from(x, unit) == grain_from(y, unit) || 2 * grain_from(x, unit) <= grain_from(
            y,
            unit,
        ),
    decreases (if y > unit { y - unit } else { 0 }),
{
    if y >= unit * 0x20_0000_0000_0000 {
        if x < unit * 0x20_0000_0000_0000 {
            lemma_grain_bounds(y, 2 * unit);
        } else {
            lemma_grain_order(x, y, 2 * unit);
        }
    }
}

proof fn lemma_grain_multiple(n: int, unit: int, base: int, times: int)
    requires
        0 < unit,
        0 < base,
        0 <= n,
        unit == base * times,
    ensures
        grain_from(n, unit) == base * (grain_from(n, unit) / base),
    decreases (if n > unit { n - unit } else { 0 }),
{
    if n >= unit * 0x20_0000_0000_0000 {
        assert(2 * unit == base * (2 * times)) by (nonlinear_arith)
            requires
                unit == base * times,
        ;
        lemma_grain_multiple(n, 2 * unit, base, 2 * times);
    } else {
        assert(unit / base == times) by (nonlinear_arith)
            requires
                unit == base * times,
                0 < base,
        ;
    }
}

/// A whole number that is less than `2^53` times another comes to at most `2^53` of it.
proof fn lemma_nearest_below(a: int, w: int)
    requires
        0 <= a < w * 0x20_0000_0000_0000,
        0 < w,
    ensures
        0 <= nearest(a, w) <= 0x20_0000_0000_0000,
{
    lemma_nearest_bounds(a, w);
    assert(nearest(a, w) <= 0x20_0000_0000_0000) by (nonlinear_arith)
        requires
            2 * (nearest(a, w) * w) <= 2 * a + w,
            a < w * 0x20_0000_0000_0000,
            0 < w,
    ;
}

proof fn lemma_nearest_above(a: int, w: int)
    requires
        w * 0x10_0000_0000_0000 <= a,
        0 < w,
    ensures
        nearest(a, w) >= 0x10_0000_0000_0000,
{
    let q = a / w;
    assert(q >= 0x10_0000_0000_0000) by (nonlinear_arith)
        requires
            q == a / w,
            w * 0x10_0000_0000_0000 <= a,
            0 < w,
    ;
}

/// Rounding to whole multiples of a power of two keeps the order.
proof fn lemma_wide_grows(a: int, c: int, b: int)
    requires
        0 <= a <= c,
        0 < b,
    ensures
        nearest(a, grain_from(a, b)) * (grain_from(a, b) / b) <= nearest(c, grain_from(c, b)) * (
        grain_from(c, b) / b),
        c >= b * 0x20_0000_0000_0000 ==> nearest(c, grain_from(c, b)) * (grain_from(c, b) / b)
            >= 0x20_0000_0000_0000,
        nearest(a, grain_from(a, b)) * (grain_from(a, b) / b) >= 0,
{
    let (v, w) = (grain_from(a, b), grain_from(c, b));
    let (g, h) = (v / b, w / b);
    lemma_grain_bounds(a, b);
    lemma_grain_bounds(c, b);
    lemma_grain_order(a, c, b);
    assert(b == b * 1);
    lemma_grain_multiple(a, b, b, 1);
    lemma_grain_multiple(c, b, b, 1);
    lemma_nearest_below(a, v);
    assert(g >= 1 && h >= 1) by (nonlinear_arith)
        requires
            v == b * g,
            w == b * h,
            v >= b,
            w >= b,
            b > 0,
    ;
    let (x, y) = (nearest(a, v), nearest(c, w));
    lemma_nearest_bounds(c, w);
    if c >= b * 0x20_0000_0000_0000 {
        lemma_grain_bounds(c, 2 * b);
        assert(w >= 2 * b);
        assert(h >= 2) by (nonlinear_arith)
            requires
                w == b * h,
                w >= 2 * b,
                b > 0,
        ;
        lemma_nearest_above(c, w);
        assert(y * h >= 0x20_0000_0000_0000) by (nonlinear_arith)
            requires
                y >= 0x10_0000_0000_0000,
                h >= 2,
        ;
    }
    assert(x * g >= 0) by (nonlinear_arith)
        requires
            x >= 0,
            g >= 1,
    ;
    if v == w {
        lemma_nearest_grows(a, c, v);
        assert(x * g <= y * h) by (nonlinear_arith)
            requires
                x <= y,
                g == h,
                g >= 1,
        ;
    } else {
        lemma_nearest_above(c, w);
        assert(2 * g <= h) by (nonlinear_arith)
            requires
                v == b * g,
                w == b * h,
                2 * v <= w,
                b > 0,
        ;
        assert(x * g <= y * h) by (nonlinear_arith)
            requires
                0 <= x <= 0x20_0000_0000_0000,
                y >= 0x10_0000_0000_0000,
                2 * g <= h,
                g >= 1,
        ;
    }
}

proof fn lemma_double_grows(m: int, n: int)
    requires
        0 <= m <= n,
    ensures
        0 <= double_of(m) <= double_of(n),
{
    lemma_wide_grows(m, n, 1);
    lemma_grain_bounds(m, 1);
    lemma_grain_bounds(n, 1);
}

/// What is known of a ratio of at most 53 binary digits.
proof fn lemma_narrow(a: int, b: int)
    requires
        0 < a < b * 0x20_0000_0000_0000,
        0 < b,
    ensures
        ({
            let g = (b * 0x10_0000_0000_0000 + a - 1) / a;
            &&& a * g >= b * 0x10_0000_0000_0000
            &&& a * (g - 1) < b * 0x10_0000_0000_0000
            &&& g >= 1
        }),
        rounded(a, b).1 >= 1,
        0x10_0000_0000_0000 <= rounded(a, b).0 <= 0x20_0000_0000_0000,
{
    let g = (b * 0x10_0000_0000_0000 + a - 1) / a;
    let k = b * 0x10_0000_0000_0000;
    assert(a * g >= k && a * (g - 1) < k && g >= 1) by (nonlinear_arith)
        requires
            g == (k + a - 1) / a,
            0 < a,
            0 < k,
    ;
    lemma_power_at_least(g, 1);
    let u = ratio_unit(a, b);
    assert(a * u >= k) by (nonlinear_arith)
        requires
            a * g >= k,
            u >= g,
            a > 0,
    ;
    assert(a * u < b * 0x20_0000_0000_0000) by {
        if g > 1 {
            lemma_power_bounds(g, 1);
            lemma_power_even(g, 1);
            assert(a * u <= 2 * (a * (g - 1))) by (nonlinear_arith)
                requires
                    u <= 2 * (g - 1),
                    a > 0,
            ;
        } else {
            assert(u == 1);
            assert(a * 1 == a);
        }
    }
    lemma_nearest_below(a * u, b);
    lemma_nearest_above(a * u, b);
}

/// A power of two that had to be doubled to reach `x` is at most `2 * (x - 1)`.
proof fn lemma_power_even(x: int, p: int)
    requires
        0 < p < x,
    ensures
        power_from(x, p) <= 2 * (x - 1),
    decreases x - p,
{
    if 2 * p < x {
        lemma_power_even(x, 2 * p);
    } else {
        assert(power_from(x, 2 * p) == 2 * p);
    }
}

/// Rounding keeps the order.
pub proof fn lemma_rounding_keeps_order(a: int, c: int, b: int)
    requires
        0 <= a <= c,
        0 < b,
    ensures
        rounded(a, b).0 * rounded(c, b).1 <= rounded(c, b).0 * rounded(a, b).1,
        rounded(a, b).0 >= 0,
        rounded(a, b).1 >= 1,
        rounded(c, b).1 >= 1,
{
    let (x, u) = rounded(a, b);
    let (y, v) = rounded(c, b);
    let wide = b * 0x20_0000_0000_0000;
    if 0 < a < wide {
        lemma_narrow(a, b);
    }
    if 0 < c < wide {
        lemma_narrow(c, b);
    }
    lemma_wide_grows(a, c, b);
    lemma_wide_grows(c, c, b);
    if a == 0 {
        assert(0 * v <= y * 1);
    } else if a >= wide {
        assert(x * 1 <= y * 1);
    } else if c >= wide {
        assert(x * 1 <= y * u) by (nonlinear_arith)
            requires
                x <= 0x20_0000_0000_0000,
                y >= 0x20_0000_0000_0000,
                u >= 1,
        ;
    } else {
        let k = b * 0x10_0000_0000_0000;
        let g = (k + a - 1) / a;
        let h = (k + c - 1) / c;
        assert(h <= g) by (nonlinear_arith)
            requires
                a * g >= k,
                c * (h - 1) < k,
                0 < a <= c,
                h >= 1,
        {
            if h > g {
                assert(c * (h - 1) >= a * g);
            }
        }
        lemma_power_order(h, g, 1);
        if u == v {
            assert(a * u <= c * u && 0 <= a * u) by (nonlinear_arith)
                requires
                    0 < a <= c,
                    u >= 1,
            ;
            lemma_nearest_grows(a * u, c * u, b);
            assert(x * v <= y * u) by (nonlinear_arith)
                requires
                    x <= y,
                    u == v,
                    u >= 1,
            ;
        } else {
            assert(x * v <= y * u) by (nonlinear_arith)
                requires
                    0 <= x <= 0x20_0000_0000_0000,
                    y >= 0x10_0000_0000_0000,
                    2 * v <= u,
                    v >= 1,
            ;
        }
    }
}

proof fn lemma_floor_keeps_order(x: int, u: int, y: int, v: int)
    requires
        0 <= x,
        0 <= y,
        1 <= u,
        1 <= v,
        x * v <= y * u,
    ensures
        x / u <= y / v,
        2 * x / u <= 2 * y / v,
{
    lemma_floor_order(x, u, y, v);
    assert((2 * x) * v <= (2 * y) * u) by (nonlinear_arith)
        requires
            x * v <= y * u,
    ;
    lemma_floor_order(2 * x, u, 2 * y, v);
}

proof fn lemma_floor_order(x: int, u: int, y: int, v: int)
    requires
        0 <= x,
        0 <= y,
        1 <= u,
        1 <= v,
        x * v <= y * u,
    ensures
        x / u <= y / v,
{
    let (p, q) = (x / u, y / v);
    assert(p <= q) by (nonlinear_arith)
        requires
            p == x / u,
            q == y / v,
            0 <= x,
            0 <= y,
            1 <= u,
            1 <= v,
            x * v <= y * u,
    {
        assert(p * u <= x);
        assert(y < (q + 1) * v);
        if p > q {
            assert(p * u * v <= x * v);
            assert(y * u < (q + 1) * v * u);
            assert((q + 1) * (v * u) <= p * (v * u));
        }
    }
}

/// More of what is multiplied does not come to less.
pub proof fn lemma_scaling_keeps_order(m: int, n: int, x: Double)
    requires
        0 <= m <= n,
    ensures
        0 <= once_more(m, x) <= once_more(n, x),
        0 <= twice_more(m, x) <= twice_more(n, x),
{
    let s = two_to(x.shift());
    lemma_two_to_grows(0, x.shift());
    lemma_rounding_keeps_order(s + x.digits(), s + x.digits(), s);
    let (d, u) = one_more(x);
    lemma_double_grows(m, n);
    let (a, c) = (double_of(m) * d, double_of(n) * d);
    assert(0 <= a <= c) by (nonlinear_arith)
        requires
            a == double_of(m) * d,
            c == double_of(n) * d,
            0 <= double_of(m) <= double_of(n),
            d >= 0,
    ;
    lemma_rounding_keeps_order(a, c, u);
    lemma_rounding_keeps_order(c, c, u);
    let (y, v) = scaled_up(m, x);
    let (z, w) = scaled_up(n, x);
    lemma_floor_keeps_order(y, v, z, w);
    lemma_floor_keeps_order(0, 1, y, v);
}

} // verus!
