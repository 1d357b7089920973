//! What rounding may cost: a share of the rotation is never more than a turn
//! away from the exact proportion, and a small ratio is cut off where the exact
//! one would be.

use vstd::prelude::*;

use crate::lb_core::binary64::{
    double_of, grain_from, lemma_double_bounds, lemma_grain_bounds, lemma_nearest_bounds,
    lemma_power_bounds, lemma_scaled_round_bound, quotient_digits, quotient_unit, ratio_digits,
    ratio_floor, ratio_unit, scaled_round,
};
use crate::lb_core::rotation::{
    first_largest, lemma_first_largest, lemma_shares_positive, proportional, relieved, share,
    shares, sum, total_weight,
};

verus! {

/// A double is within one part in `2^53` of the whole number it stands for.
pub proof fn lemma_double_is_close(n: int)
    requires
        n >= 0,
    ensures
        0x20_0000_0000_0000 * double_of(n) <= 0x20_0000_0000_0001 * n,
        0x20_0000_0000_0000 * double_of(n) >= 0x1f_ffff_ffff_ffff * n,
{
    lemma_grain_bounds(n, 1);
    lemma_double_bounds(n);
    lemma_nearest_bounds(n, grain_from(n, 1));
}

/// From above: the digits, the product and the rounding put together.
proof fn lemma_share_from_above(w: int, t: int, unit: int, q: int, p: int, r: int)
    requires
        w >= 0,
        t > 0,
        q >= 0,
        r >= 0,
        unit >= t * 0x100_0000_0000,
        2 * (q * t) <= 2 * (4096 * unit) + t,
        0x20_0000_0000_0000 * p <= 0x20_0000_0000_0001 * (w * q),
        2 * (unit * r) <= 2 * p + unit,
    ensures
        0x4000_0000_0000_0000_0000_0000 * (r * t)
            <= 0x400_0000_0000_0040_0000_0000_0001 * w + 0x2000_0000_0000_0000_0000_0000 * t,
{
    let x = w * q;
    assert(0x40_0000_0000_0000 * (unit * r)
        <= 0x40_0000_0000_0002 * x + 0x20_0000_0000_0000 * unit);
    assert(0x40_0000_0000_0000 * (unit * r) * t
        <= (0x40_0000_0000_0002 * x + 0x20_0000_0000_0000 * unit) * t) by (nonlinear_arith)
        requires
            0x40_0000_0000_0000 * (unit * r)
                <= 0x40_0000_0000_0002 * x + 0x20_0000_0000_0000 * unit,
            t > 0,
    ;
    assert(0x40_0000_0000_0000 * (unit * r) * t
        == 0x40_0000_0000_0000 * (unit * (r * t))) by (nonlinear_arith);
    assert((0x40_0000_0000_0002 * x + 0x20_0000_0000_0000 * unit) * t
        == 0x40_0000_0000_0002 * (x * t) + 0x20_0000_0000_0000 * (unit * t))
        by (nonlinear_arith);
    assert(x * t == w * (q * t)) by (nonlinear_arith)
        requires
            x == w * q,
    ;
    assert(2 * (w * (q * t)) <= 8192 * (w * unit) + w * t) by (nonlinear_arith)
        requires
            2 * (q * t) <= 2 * (4096 * unit) + t,
            w >= 0,
    ;
    assert(0x100_0000_0000 * (w * t) <= w * unit) by (nonlinear_arith)
        requires
            unit >= t * 0x100_0000_0000,
            w >= 0,
    ;
    let a = 0x4000_0000_0000_0000_0000_0000 * (r * t);
    let b = 0x400_0000_0000_0040_0000_0000_0001 * w + 0x2000_0000_0000_0000_0000_0000 * t;
    assert(unit * a == 0x4000_0000_0000_0000_0000_0000 * (unit * (r * t))) by (nonlinear_arith)
        requires
            a == 0x4000_0000_0000_0000_0000_0000 * (r * t),
    ;
    assert(unit * b
        == 0x400_0000_0000_0040_0000_0000_0001 * (w * unit)
        + 0x2000_0000_0000_0000_0000_0000 * (unit * t))
        by (nonlinear_arith)
        requires
            b == 0x400_0000_0000_0040_0000_0000_0001 * w + 0x2000_0000_0000_0000_0000_0000 * t,
    ;
    assert(unit * a <= unit * b);
    assert(a <= b) by (nonlinear_arith)
        requires
            unit * a <= unit * b,
            unit > 0,
    ;
}

/// From below: the same.
proof fn lemma_share_from_below(w: int, t: int, unit: int, q: int, p: int, r: int)
    requires
        w >= 0,
        t > 0,
        q >= 0,
        r >= 0,
        unit >= t * 0x100_0000_0000,
        2 * (q * t) >= 2 * (4096 * unit) - t,
        0x20_0000_0000_0000 * p >= 0x1f_ffff_ffff_ffff * (w * q),
        2 * (unit * r) >= 2 * p - unit,
    ensures
        0x4000_0000_0000_0000_0000_0000 * (r * t)
            >= 0x3ff_ffff_ffff_ffc0_0000_0000_0001 * w - 0x2000_0000_0000_0000_0000_0000 * t,
{
    let x = w * q;
    assert(0x40_0000_0000_0000 * (unit * r)
        >= 0x3f_ffff_ffff_fffe * x - 0x20_0000_0000_0000 * unit);
    assert(0x40_0000_0000_0000 * (unit * r) * t
        >= (0x3f_ffff_ffff_fffe * x - 0x20_0000_0000_0000 * unit) * t) by (nonlinear_arith)
        requires
            0x40_0000_0000_0000 * (unit * r)
                >= 0x3f_ffff_ffff_fffe * x - 0x20_0000_0000_0000 * unit,
            t > 0,
    ;
    assert(0x40_0000_0000_0000 * (unit * r) * t
        == 0x40_0000_0000_0000 * (unit * (r * t))) by (nonlinear_arith);
    assert((0x3f_ffff_ffff_fffe * x - 0x20_0000_0000_0000 * unit) * t
        == 0x3f_ffff_ffff_fffe * (x * t) - 0x20_0000_0000_0000 * (unit * t))
        by (nonlinear_arith);
    assert(x * t == w * (q * t)) by (nonlinear_arith)
        requires
            x == w * q,
    ;
    assert(2 * (w * (q * t)) >= 8192 * (w * unit) - w * t) by (nonlinear_arith)
        requires
            2 * (q * t) >= 2 * (4096 * unit) - t,
            w >= 0,
    ;
    assert(0x100_0000_0000 * (w * t) <= w * unit) by (nonlinear_arith)
        requires
            unit >= t * 0x100_0000_0000,
            w >= 0,
    ;
    let a = 0x4000_0000_0000_0000_0000_0000 * (r * t);
    let b = 0x3ff_ffff_ffff_ffc0_0000_0000_0001 * w - 0x2000_0000_0000_0000_0000_0000 * t;
    assert(unit * a == 0x4000_0000_0000_0000_0000_0000 * (unit * (r * t))) by (nonlinear_arith)
        requires
            a == 0x4000_0000_0000_0000_0000_0000 * (r * t),
    ;
    assert(unit * b
        == 0x3ff_ffff_ffff_ffc0_0000_0000_0001 * (w * unit)
        - 0x2000_0000_0000_0000_0000_0000 * (unit * t))
        by (nonlinear_arith)
        requires
            b == 0x3ff_ffff_ffff_ffc0_0000_0000_0001 * w - 0x2000_0000_0000_0000_0000_0000 * t,
    ;
    assert(unit * a >= unit * b);
    assert(a >= b) by (nonlinear_arith)
        requires
            unit * a >= unit * b,
            unit > 0,
    ;
}

/// Where the weights add up to more than the rotation is long, a weight gets its
/// proportion of 4096 turns, give or take one; and where they do not, as many
/// turns as it says.
pub proof fn lemma_turns_are_in_proportion(w: int, total: int)
    requires
        0 <= w <= total <= u64::MAX,
        0 < total,
    ensures
        total <= 4096 ==> share(w, total) == w,
        total > 4096 && share(w, total) > 1 ==> share(w, total) * total <= 4096 * w + total,
        total > 4096 ==> share(w, total) * total >= 4096 * w - total,
        total > 4096 ==> share(w, total) >= 1,
{
    if total > 4096 {
        let t = double_of(total);
        let unit = quotient_unit(t);
        let q = quotient_digits(t);
        let p = double_of(w * q);
        let r = scaled_round(w, total);
        lemma_double_bounds(total);
        lemma_double_is_close(total);
        lemma_power_bounds(t * 0x100_0000_0000, 1);
        lemma_nearest_bounds(4096 * unit, t);
        assert(w * q >= 0) by (nonlinear_arith)
            requires
                w >= 0,
                q >= 0,
        ;
        lemma_double_is_close(w * q);
        lemma_scaled_round_bound(w, total);
        assert(2 * (unit * r) <= 2 * p + unit && 2 * (unit * r) >= 2 * p - unit)
            by (nonlinear_arith)
            requires
                r == (2 * p + unit) / (2 * unit),
                unit > 0,
        {
            let n = 2 * p + unit;
            assert(n == (2 * unit) * (n / (2 * unit)) + n % (2 * unit));
            assert(0 <= n % (2 * unit) < 2 * unit);
        }
        lemma_share_from_above(w, t, unit, q, p, r);
        lemma_share_from_below(w, t, unit, q, p, r);
        assert(0x20_0000_0000_0000 * (r * t) >= 0x1f_ffff_ffff_ffff * (r * total)
            && 0x20_0000_0000_0000 * (r * t) <= 0x20_0000_0000_0001 * (r * total))
            by (nonlinear_arith)
            requires
                0x20_0000_0000_0000 * t >= 0x1f_ffff_ffff_ffff * total,
                0x20_0000_0000_0000 * t <= 0x20_0000_0000_0001 * total,
                r >= 0,
        ;
        assert(0 <= r * total <= 0x8000 * total) by (nonlinear_arith)
            requires
                0 <= r <= 0x8000,
                total > 0,
        ;
        assert(r * total <= 4096 * w + total);
        assert(r * total >= 4096 * w - total);
        if r < 1 {
            assert(r * total == 0) by (nonlinear_arith)
                requires
                    r == 0,
            ;
        }
    }
}

proof fn lemma_relief(ss: Seq<int>, n: nat, i: int, j: int)
    requires
        0 <= i < ss.len(),
        0 <= j < ss.len(),
        ss[i] >= ss[j] - 1,
    ensures
        relieved(ss, n).len() == ss.len(),
        relieved(ss, n)[i] <= ss[i],
        relieved(ss, n)[i] >= relieved(ss, n)[j] - 1,
    decreases n,
{
    if n > 0 {
        let most = first_largest(ss, ss.len() as int);
        lemma_first_largest(ss, ss.len() as int);
        assert(ss[i] <= ss[most] && ss[j] <= ss[most]);
        lemma_relief(ss.update(most, ss[most] - 1), (n - 1) as nat, i, j);
    }
}

/// No backend gets more turns than its part, rounded up; none gets fewer than its part
/// where nothing is taken back; and what is taken back never leaves a backend two turns
/// behind one whose part is not larger.
pub proof fn lemma_turns_taken_back_are_spread(ws: Seq<int>, i: int, j: int)
    requires
        forall|k: int| 0 <= k < ws.len() ==> 1 <= #[trigger] ws[k] <= u32::MAX,
        0 <= i < ws.len(),
        0 <= j < ws.len(),
        sum(ws) <= u64::MAX,
    ensures
        sum(ws) <= 4096 ==> shares(ws)[i] == ws[i],
        sum(ws) > 4096 && shares(ws)[i] > 1 ==> shares(ws)[i] * sum(ws) <= 4096 * ws[i] + sum(ws),
        sum(ws) > 4096 && sum(proportional(ws)) <= 4096 ==> shares(ws)[i] * sum(ws) >= 4096 * ws[i]
            - sum(ws),
        proportional(ws)[i] >= proportional(ws)[j] ==> shares(ws)[i] >= shares(ws)[j] - 1,
{
    lemma_shares_positive(ws);
    let total = sum(ws);
    let parts = proportional(ws);
    assert(total_weight(ws) == total);
    assert(ws[i] <= total_weight(ws));
    lemma_turns_are_in_proportion(ws[i], total);
    assert(parts[i] == share(ws[i], total));
    if ws.len() <= 4096 && sum(parts) > 4096 {
        let n = (sum(parts) - 4096) as nat;
        lemma_relief(parts, n, i, i);
        if parts[i] >= parts[j] {
            lemma_relief(parts, n, i, j);
        }
        let (a, b) = (shares(ws)[i], parts[i]);
        assert(a * total <= b * total) by (nonlinear_arith)
            requires
                a <= b,
                total >= 0,
        ;
    }
}

/// The whole part of a ratio of numbers that doubles hold exactly is that of the
/// exact ratio.
pub proof fn lemma_small_ratios_are_cut_off_exactly(a: int, b: int)
    requires
        0 <= a < 0x20_0000_0000_0000,
        0 < b,
    ensures
        ratio_floor(a, b) * b <= a < (ratio_floor(a, b) + 1) * b,
{
    if a == 0 {
        assert(0int / 1 == 0);
        assert(0 * b == 0 && (0 + 1) * b == b);
    } else {
        let k: int = 0x10_0000_0000_0000;
        let g = (b * k + a - 1) / a;
        let u = ratio_unit(a, b);
        let d = ratio_digits(a, b);
        let q = a / b;
        let r = a % b;
        assert(a < b * 0x20_0000_0000_0000);
        assert(g >= 1 && a * g >= b * k) by (nonlinear_arith)
            requires
                g == (b * k + a - 1) / a,
                a >= 1,
                b >= 1,
                k >= 1,
        {
            let n = b * k + a - 1;
            assert(n == a * (n / a) + n % a);
            assert(0 <= n % a < a);
            assert(b * k >= 1);
        }
        if g > 1 {
            lemma_power_bounds(g, 1);
        }
        assert(u >= g);
        assert(a * u >= b * k) by (nonlinear_arith)
            requires
                a * g >= b * k,
                u >= g,
                a >= 1,
        ;
        assert(a == q * b + r && 0 <= r < b && q >= 0) by (nonlinear_arith)
            requires
                a >= 0,
                b > 0,
                q == a / b,
                r == a % b,
        ;
        assert(2 * u > b) by (nonlinear_arith)
            requires
                a * u >= b * k,
                0 < a < 2 * k,
                b > 0,
                u > 0,
        ;
        lemma_nearest_bounds(a * u, b);
        assert(d >= (a * u) / b);
        assert((a * u) / b >= q * u) by (nonlinear_arith)
            requires
                a == q * b + r,
                r >= 0,
                u > 0,
                b > 0,
        {
            let n = a * u;
            assert(n == (q * u) * b + r * u);
            assert(n == b * (n / b) + n % b);
            assert(0 <= n % b < b);
        }
        assert(d < (q + 1) * u) by (nonlinear_arith)
            requires
                2 * (d * b) <= 2 * (a * u) + b,
                a == q * b + r,
                r <= b - 1,
                2 * u > b,
                u > 0,
                b > 0,
        {
            assert(a * u <= (q * b + b - 1) * u);
            assert((q * b + b - 1) * u == ((q + 1) * u) * b - u);
            assert(d * b < ((q + 1) * u) * b);
        }
        assert(d / u == q) by (nonlinear_arith)
            requires
                q * u <= d < (q + 1) * u,
                u > 0,
        ;
        assert((q + 1) * b == q * b + b) by (nonlinear_arith);
    }
}

} // verus!
