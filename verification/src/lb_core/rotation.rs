//! Smooth weighted round robin: the order in which backends of unequal weight
//! take their turns.
//!
//! Every round each backend earns its share; the backend with the highest
//! credit takes the turn and pays the sum of all shares. The turns of one cycle
//! are interleaved rather than blocked, so that consecutive requests spread
//! across backends instead of hammering one backend for its whole share.

use vstd::prelude::*;

use crate::lb_core::binary64::{lemma_scaled_round_bound, scale_weight, scaled_round};

verus! {

/// Cap on the pre-expanded weighted-selection table.
///
/// Turns are served from a flattened table so that selection is a look-up rather
/// than a scan over cumulative weights. Weights are scaled down proportionally if
/// they would exceed this, which bounds memory at 8 KiB per route.
pub const MAX_WEIGHT_TABLE: usize = 4096;

/// The sum of a sequence of numbers.
pub open spec fn sum(ws: Seq<int>) -> int
    decreases ws.len(),
{
    if ws.len() == 0 {
        0
    } else {
        sum(ws.drop_last()) + ws.last()
    }
}

/// The sum of the weights, as far as 64 bits hold it.
pub open spec fn total_weight(ws: Seq<int>) -> int {
    if sum(ws) > u64::MAX {
        u64::MAX as int
    } else {
        sum(ws)
    }
}

/// The proportional part of the cycle for a backend of weight `w`: the weight itself
/// while the weights add up to at most [`MAX_WEIGHT_TABLE`], and otherwise its
/// proportional part of that, at least one.
pub open spec fn share(w: int, total: int) -> int {
    if total <= 4096 {
        w
    } else if scaled_round(w, total) < 1 {
        1
    } else {
        scaled_round(w, total)
    }
}

/// The proportional part of every backend.
pub open spec fn proportional(ws: Seq<int>) -> Seq<int> {
    Seq::new(ws.len(), |i: int| share(ws[i], total_weight(ws)))
}

/// What is left of the shares once `n` turns were taken back, one after another,
/// each from the first of the backends that have the most.
pub open spec fn relieved(ss: Seq<int>, n: nat) -> Seq<int>
    decreases n,
{
    if n == 0 {
        ss
    } else {
        let most = first_largest(ss, ss.len() as int);
        relieved(ss.update(most, ss[most] - 1), (n - 1) as nat)
    }
}

/// The turns per cycle of every backend: its proportional part. What the rounding
/// adds beyond [`MAX_WEIGHT_TABLE`] is taken back from the backends that have the
/// most, as long as that leaves every backend a turn.
pub open spec fn shares(ws: Seq<int>) -> Seq<int> {
    let parts = proportional(ws);
    if ws.len() <= 4096 && sum(parts) > 4096 {
        relieved(parts, (sum(parts) - 4096) as nat)
    } else {
        parts
    }
}

/// The first of the largest among the first `k` credits.
pub open spec fn first_largest(credits: Seq<int>, k: int) -> int
    decreases k,
{
    if k <= 1 {
        0
    } else {
        let best = first_largest(credits, k - 1);
        if credits[k - 1] > credits[best] {
            k - 1
        } else {
            best
        }
    }
}

/// Each backend's credit after `t` turns.
pub open spec fn credits(ss: Seq<int>, t: nat) -> Seq<int>
    decreases t, 0int,
{
    if t == 0 {
        Seq::new(ss.len(), |i: int| 0)
    } else {
        let earned = earned(ss, (t - 1) as nat);
        let best = first_largest(earned, ss.len() as int);
        earned.update(best, earned[best] - sum(ss))
    }
}

/// The credits after `t` turns, with the next round's shares added.
pub open spec fn earned(ss: Seq<int>, t: nat) -> Seq<int>
    decreases t, 1int,
{
    Seq::new(ss.len(), |i: int| credits(ss, t)[i] + ss[i])
}

/// The backend that takes turn `t`.
pub open spec fn turn(ss: Seq<int>, t: nat) -> int {
    first_largest(earned(ss, t), ss.len() as int)
}

/// How many of the first `t` turns backend `i` takes.
pub open spec fn turns_taken(ss: Seq<int>, i: int, t: nat) -> int
    decreases t,
{
    if t == 0 {
        0
    } else {
        turns_taken(ss, i, (t - 1) as nat) + (if turn(ss, (t - 1) as nat) == i {
            1int
        } else {
            0int
        })
    }
}

/// A backend's position as the 16-bit table holds it; positions beyond 65535
/// fall back to the first backend.
pub open spec fn table_entry(i: int) -> u16 {
    if i <= 0xffff {
        i as u16
    } else {
        0
    }
}

/// The turns of one whole cycle.
pub open spec fn weight_table(ws: Seq<int>) -> Seq<u16> {
    Seq::new(sum(shares(ws)) as nat, |t: int| table_entry(turn(shares(ws), t as nat)))
}

/// Whether every backend has at least one turn per cycle.
pub open spec fn all_positive(ss: Seq<int>) -> bool {
    forall|i: int| 0 <= i < ss.len() ==> #[trigger] ss[i] >= 1
}

proof fn lemma_sum_nonneg(ws: Seq<int>)
    requires
        forall|i: int| 0 <= i < ws.len() ==> #[trigger] ws[i] >= 0,
    ensures
        sum(ws) >= 0,
        forall|i: int| 0 <= i < ws.len() ==> #[trigger] ws[i] <= sum(ws),
    decreases ws.len(),
{
    if ws.len() > 0 {
        let init = ws.drop_last();
        assert forall|i: int| 0 <= i < init.len() implies #[trigger] init[i] >= 0 by {
            assert(init[i] == ws[i]);
        }
        lemma_sum_nonneg(init);
        assert forall|i: int| 0 <= i < ws.len() implies #[trigger] ws[i] <= sum(ws) by {
            if i < init.len() {
                assert(init[i] == ws[i]);
            }
        }
    }
}

proof fn lemma_sum_bound(ws: Seq<int>, b: int)
    requires
        forall|i: int| 0 <= i < ws.len() ==> #[trigger] ws[i] <= b,
    ensures
        sum(ws) <= ws.len() * b,
    decreases ws.len(),
{
    if ws.len() > 0 {
        let init = ws.drop_last();
        assert forall|i: int| 0 <= i < init.len() implies #[trigger] init[i] <= b by {
            assert(init[i] == ws[i]);
        }
        lemma_sum_bound(init, b);
        assert(ws.len() * b == init.len() * b + b) by (nonlinear_arith)
            requires
                ws.len() == init.len() + 1,
        ;
    }
}

proof fn lemma_sum_positive(ws: Seq<int>)
    requires
        all_positive(ws),
    ensures
        sum(ws) >= ws.len(),
    decreases ws.len(),
{
    if ws.len() > 0 {
        let init = ws.drop_last();
        assert forall|i: int| 0 <= i < init.len() implies #[trigger] init[i] >= 1 by {
            assert(init[i] == ws[i]);
        }
        lemma_sum_positive(init);
        assert(ws[ws.len() - 1] >= 1);
    }
}

proof fn lemma_sum_of_sums(a: Seq<int>, b: Seq<int>, c: Seq<int>)
    requires
        a.len() == b.len() == c.len(),
        forall|i: int| 0 <= i < a.len() ==> #[trigger] c[i] == a[i] + b[i],
    ensures
        sum(c) == sum(a) + sum(b),
    decreases a.len(),
{
    if a.len() > 0 {
        assert forall|i: int| 0 <= i < a.len() - 1 implies #[trigger] c.drop_last()[i]
            == a.drop_last()[i] + b.drop_last()[i] by {
            assert(c.drop_last()[i] == c[i]);
        }
        lemma_sum_of_sums(a.drop_last(), b.drop_last(), c.drop_last());
        assert(c[c.len() - 1] == a.last() + b.last());
    }
}

proof fn lemma_sum_update(ws: Seq<int>, i: int, v: int)
    requires
        0 <= i < ws.len(),
    ensures
        sum(ws.update(i, v)) == sum(ws) - ws[i] + v,
    decreases ws.len(),
{
    let after = ws.update(i, v);
    if i == ws.len() - 1 {
        assert(after.drop_last() =~= ws.drop_last());
    } else {
        lemma_sum_update(ws.drop_last(), i, v);
        assert(after.drop_last() =~= ws.drop_last().update(i, v));
    }
}

proof fn lemma_sum_zeros(n: nat)
    ensures
        sum(Seq::new(n, |i: int| 0int)) == 0,
    decreases n,
{
    if n > 0 {
        lemma_sum_zeros((n - 1) as nat);
        assert(Seq::new(n, |i: int| 0int).drop_last() =~= Seq::new((n - 1) as nat, |i: int| 0int));
    }
}

/// The chosen credit is a largest one.
pub proof fn lemma_first_largest(credits: Seq<int>, k: int)
    requires
        1 <= k <= credits.len(),
    ensures
        0 <= first_largest(credits, k) < k,
        forall|j: int| 0 <= j < k ==> #[trigger] credits[j] <= credits[first_largest(credits, k)],
    decreases k,
{
    if k > 1 {
        lemma_first_largest(credits, k - 1);
    }
}

/// A backend's credit is what it earned less what it paid, the credits cancel
/// out, and no backend owes a whole cycle.
proof fn lemma_credits(ss: Seq<int>, t: nat)
    requires
        ss.len() > 0,
        all_positive(ss),
    ensures
        credits(ss, t).len() == ss.len(),
        sum(credits(ss, t)) == 0,
        forall|i: int|
            0 <= i < ss.len() ==> #[trigger] credits(ss, t)[i] == t * ss[i] - sum(ss)
                * turns_taken(ss, i, t),
        forall|i: int| 0 <= i < ss.len() ==> #[trigger] credits(ss, t)[i] > -sum(ss),
        forall|i: int| 0 <= i < ss.len() ==> 0 <= #[trigger] turns_taken(ss, i, t) <= t,
    decreases t,
{
    lemma_sum_positive(ss);
    if t == 0 {
        lemma_sum_zeros(ss.len());
        assert forall|i: int| 0 <= i < ss.len() implies #[trigger] credits(ss, t)[i] == t * ss[i]
            - sum(ss) * turns_taken(ss, i, t) by {
            assert(0 * ss[i] == 0);
            assert(sum(ss) * 0 == 0);
        }
    } else {
        let s = (t - 1) as nat;
        lemma_credits(ss, s);
        let e = earned(ss, s);
        let best = turn(ss, s);
        lemma_first_largest(e, ss.len() as int);
        lemma_sum_of_sums(credits(ss, s), ss, e);
        lemma_sum_update(e, best, e[best] - sum(ss));
        // The largest of credits that add up to a positive number is positive.
        assert(e[best] > 0) by {
            if e[best] <= 0 {
                lemma_sum_bound(e, 0);
                assert(e.len() * 0 == 0);
            }
        }
        assert forall|i: int| 0 <= i < ss.len() implies {
            &&& #[trigger] credits(ss, t)[i] == t * ss[i] - sum(ss) * turns_taken(ss, i, t)
            &&& credits(ss, t)[i] > -sum(ss)
        } by {
            assert(credits(ss, s)[i] == s * ss[i] - sum(ss) * turns_taken(ss, i, s));
            assert(ss[i] >= 1);
            assert(t * ss[i] == s * ss[i] + ss[i]) by (nonlinear_arith)
                requires
                    t == s + 1,
            ;
            if i == best {
                assert(turns_taken(ss, i, t) == turns_taken(ss, i, s) + 1);
                assert(sum(ss) * (turns_taken(ss, i, s) + 1) == sum(ss) * turns_taken(ss, i, s)
                    + sum(ss)) by (nonlinear_arith);
            } else {
                assert(turns_taken(ss, i, t) == turns_taken(ss, i, s));
            }
        }
        assert forall|i: int| 0 <= i < ss.len() implies 0 <= #[trigger] turns_taken(ss, i, t)
            <= t by {
            assert(0 <= turns_taken(ss, i, s) <= s);
        }
    }
}

/// In a whole cycle every backend takes exactly as many turns as its share.
pub proof fn lemma_cycle_honours_shares(ss: Seq<int>, i: int)
    requires
        all_positive(ss),
        0 <= i < ss.len(),
    ensures
        turns_taken(ss, i, sum(ss) as nat) == ss[i],
{
    let w = sum(ss);
    lemma_sum_positive(ss);
    lemma_credits(ss, w as nat);
    let c = credits(ss, w as nat);
    assert forall|j: int| 0 <= j < ss.len() implies #[trigger] c[j] >= 0 && c[j] == w * (ss[j]
        - turns_taken(ss, j, w as nat)) by {
        let k = turns_taken(ss, j, w as nat);
        assert(c[j] == w * ss[j] - w * k);
        assert(w * ss[j] - w * k == w * (ss[j] - k)) by (nonlinear_arith);
        assert(ss[j] - k > -1) by (nonlinear_arith)
            requires
                w * (ss[j] - k) > -w,
                w > 0,
        ;
        assert(w * (ss[j] - k) >= 0) by (nonlinear_arith)
            requires
                ss[j] - k >= 0,
                w > 0,
        ;
    }
    lemma_sum_nonneg(c);
    assert(c[i] <= 0);
    let k = turns_taken(ss, i, w as nat);
    assert(ss[i] - k == 0) by (nonlinear_arith)
        requires
            w * (ss[i] - k) == 0,
            w > 0,
    ;
}

/// At no point of the cycle has a backend taken a whole turn more than its
/// proportional part of the turns so far.
pub proof fn lemma_no_backend_runs_ahead(ss: Seq<int>, i: int, t: nat)
    requires
        all_positive(ss),
        0 <= i < ss.len(),
    ensures
        sum(ss) * turns_taken(ss, i, t) < t * ss[i] + sum(ss),
{
    lemma_credits(ss, t);
    assert(credits(ss, t)[i] > -sum(ss));
}

/// Every turn goes to some backend.
pub proof fn lemma_turn_in_range(ss: Seq<int>, t: nat)
    requires
        ss.len() > 0,
    ensures
        0 <= turn(ss, t) < ss.len(),
{
    lemma_first_largest(earned(ss, t), ss.len() as int);
}

/// Turns are taken back one by one, and never the last one of a backend.
proof fn lemma_relieved(ss: Seq<int>, n: nat)
    requires
        ss.len() > 0,
        all_positive(ss),
        sum(ss) - n >= ss.len(),
    ensures
        relieved(ss, n).len() == ss.len(),
        all_positive(relieved(ss, n)),
        sum(relieved(ss, n)) == sum(ss) - n,
        forall|i: int| 0 <= i < ss.len() ==> #[trigger] relieved(ss, n)[i] <= ss[i],
    decreases n,
{
    if n > 0 {
        let most = first_largest(ss, ss.len() as int);
        lemma_most_has_more_than_one(ss);
        let next = ss.update(most, ss[most] - 1);
        lemma_sum_update(ss, most, ss[most] - 1);
        assert forall|i: int| 0 <= i < next.len() implies #[trigger] next[i] >= 1 by {
            assert(ss[i] >= 1);
        }
        lemma_relieved(next, (n - 1) as nat);
        assert forall|i: int| 0 <= i < ss.len() implies #[trigger] relieved(ss, n)[i] <= ss[i] by {
            assert(relieved(next, (n - 1) as nat)[i] <= next[i]);
        }
    }
}

/// Where there are more turns than backends, some backend has more than one.
proof fn lemma_most_has_more_than_one(ss: Seq<int>)
    requires
        ss.len() > 0,
        sum(ss) > ss.len(),
    ensures
        0 <= first_largest(ss, ss.len() as int) < ss.len(),
        ss[first_largest(ss, ss.len() as int)] >= 2,
{
    let most = first_largest(ss, ss.len() as int);
    lemma_first_largest(ss, ss.len() as int);
    if ss[most] <= 1 {
        lemma_sum_bound(ss, 1);
    }
}

/// Every share is at least one and small enough to add up, and a cycle stays within
/// the cap as long as there are no more backends than that.
pub proof fn lemma_shares_positive(ws: Seq<int>)
    requires
        forall|i: int| 0 <= i < ws.len() ==> 1 <= #[trigger] ws[i] <= u32::MAX,
    ensures
        all_positive(shares(ws)),
        forall|i: int| 0 <= i < ws.len() ==> #[trigger] shares(ws)[i] <= 0x8000,
        sum(shares(ws)) <= ws.len() * 0x8000,
        sum(shares(ws)) >= ws.len(),
        ws.len() <= MAX_WEIGHT_TABLE ==> sum(shares(ws)) <= MAX_WEIGHT_TABLE,
        sum(ws) <= MAX_WEIGHT_TABLE ==> shares(ws) == ws,
        sum(shares(ws)) == (if ws.len() <= MAX_WEIGHT_TABLE && sum(proportional(ws))
            > MAX_WEIGHT_TABLE {
            MAX_WEIGHT_TABLE as int
        } else {
            sum(proportional(ws))
        }),
        shares(ws).len() == ws.len(),
        all_positive(proportional(ws)),
        forall|i: int| 0 <= i < ws.len() ==> #[trigger] proportional(ws)[i] <= 0x8000,
        sum(proportional(ws)) >= ws.len(),
        ws.len() > 0 ==> total_weight(ws) >= 1,
        forall|i: int| 0 <= i < ws.len() ==> #[trigger] ws[i] <= total_weight(ws),
{
    lemma_sum_nonneg(ws);
    lemma_sum_positive(ws);
    let total = total_weight(ws);
    let parts = proportional(ws);
    assert forall|i: int| 0 <= i < ws.len() implies 1 <= #[trigger] parts[i] <= 0x8000 by {
        assert(1 <= ws[i] <= sum(ws));
        if total > 4096 {
            lemma_scaled_round_bound(ws[i], total);
        }
    }
    lemma_sum_positive(parts);
    if ws.len() <= 4096 && sum(parts) > 4096 {
        if ws.len() == 0 {
            assert(sum(parts) == 0);
        }
        lemma_relieved(parts, (sum(parts) - 4096) as nat);
    }
    if sum(ws) <= 4096 {
        assert(parts =~= ws);
    }
    assert forall|i: int| 0 <= i < ws.len() implies #[trigger] shares(ws)[i] <= 0x8000 by {
        assert(parts[i] <= 0x8000);
    }
    lemma_sum_bound(shares(ws), 0x8000);
    lemma_sum_positive(shares(ws));
}

/// Lay out one cycle of turns for the given weights.
pub fn lay_out(weights: &Vec<u32>) -> (table: Vec<u16>)
    requires
        weights@.len() > 0,
        forall|i: int| 0 <= i < weights@.len() ==> #[trigger] weights@[i] >= 1,
    ensures
        table@ == weight_table(Seq::new(weights@.len(), |i: int| weights@[i] as int)),
        table@.len() >= weights@.len(),
        weights@.len() <= MAX_WEIGHT_TABLE ==> table@.len() <= MAX_WEIGHT_TABLE,
        forall|t: int| 0 <= t < table@.len() ==> #[trigger] table@[t] < weights@.len(),
{
    let ghost ws: Seq<int> = Seq::new(weights@.len(), |i: int| weights@[i] as int);
    let n: usize = weights.len();
    proof {
        lemma_sum_nonneg(ws);
    }
    let mut total: u64 = 0;
    let mut k: usize = 0;
    assert(ws.take(0) =~= Seq::empty());
    while k < n
        invariant
            k <= n,
            n == weights@.len(),
            ws == Seq::new(weights@.len(), |i: int| weights@[i] as int),
            total == total_weight(ws.take(k as int)),
            sum(ws.take(k as int)) >= 0,
        decreases n - k,
    {
        assert(ws.take(k + 1).drop_last() =~= ws.take(k as int));
        total = total.saturating_add(weights[k] as u64);
        k = k + 1;
    }
    assert(ws.take(n as int) =~= ws);

    proof {
        lemma_shares_positive(ws);
    }
    let ghost ss = proportional(ws);
    let mut parts: Vec<i128> = Vec::new();
    let mut current: Vec<i128> = Vec::new();
    let mut cycle: i128 = 0;
    k = 0;
    assert(ss.take(0) =~= Seq::empty());
    while k < n
        invariant
            k <= n,
            n == weights@.len(),
            ws == Seq::new(weights@.len(), |i: int| weights@[i] as int),
            total == total_weight(ws),
            ss == proportional(ws),
            ss.len() == n,
            forall|i: int| 0 <= i < ws.len() ==> 1 <= #[trigger] ws[i] <= total_weight(ws),
            forall|i: int| 0 <= i < ss.len() ==> 1 <= #[trigger] ss[i] <= 0x8000,
            parts@.len() == k,
            current@.len() == k,
            forall|i: int| 0 <= i < k ==> #[trigger] parts@[i] == ss[i],
            forall|i: int| 0 <= i < k ==> #[trigger] current@[i] == 0,
            cycle == sum(ss.take(k as int)),
            0 <= cycle <= k * 0x8000,
        decreases n - k,
    {
        assert(ws[k as int] <= total_weight(ws));
        let w: u32 = weights[k];
        let part: u64 = if total <= 4096 {
            w as u64
        } else {
            let scaled: u64 = scale_weight(w, total);
            if scaled < 1 {
                1
            } else {
                scaled
            }
        };
        assert(part == ss[k as int]);
        parts.push(part as i128);
        current.push(0);
        assert(ss.take(k + 1).drop_last() =~= ss.take(k as int));
        cycle = cycle + part as i128;
        k = k + 1;
    }
    assert(ss.take(n as int) =~= ss);

    // The rounding may have added turns beyond the cap.
    let mut excess: i128 = if n <= MAX_WEIGHT_TABLE && cycle > 4096 {
        cycle - 4096
    } else {
        0
    };
    cycle = cycle - excess;
    let ghost ss = shares(ws);
    assert(Seq::new(n as nat, |i: int| parts@[i] as int) =~= proportional(ws));
    while excess > 0
        invariant
            n > 0,
            0 <= excess,
            parts@.len() == n,
            relieved(Seq::new(n as nat, |i: int| parts@[i] as int), excess as nat) == ss,
            all_positive(Seq::new(n as nat, |i: int| parts@[i] as int)),
            sum(Seq::new(n as nat, |i: int| parts@[i] as int)) - excess >= n,
        decreases excess,
    {
        let ghost before = Seq::new(n as nat, |i: int| parts@[i] as int);
        proof {
            lemma_most_has_more_than_one(before);
        }
        let mut most: usize = 0;
        let mut i: usize = 1;
        while i < n
            invariant
                1 <= i <= n,
                most < i,
                parts@.len() == n,
                before == Seq::new(n as nat, |j: int| parts@[j] as int),
                most == first_largest(before, i as int),
            decreases n - i,
        {
            if parts[i] > parts[most] {
                most = i;
            }
            i = i + 1;
        }
        let fewer: i128 = parts[most] - 1;
        parts.set(most, fewer);
        excess = excess - 1;
        proof {
            let after = Seq::new(n as nat, |j: int| parts@[j] as int);
            assert(after =~= before.update(most as int, before[most as int] - 1));
            lemma_sum_update(before, most as int, before[most as int] - 1);
            assert forall|j: int| 0 <= j < after.len() implies #[trigger] after[j] >= 1 by {
                assert(before[j] >= 1);
            }
        }
    }
    assert forall|i: int| 0 <= i < n implies #[trigger] parts@[i] == ss[i] by {
        assert(Seq::new(n as nat, |j: int| parts@[j] as int)[i] == ss[i]);
    }
    assert(credits(ss, 0) =~= Seq::new(n as nat, |i: int| current@[i] as int));

    let mut table: Vec<u16> = Vec::new();
    let mut t: i128 = 0;
    while t < cycle
        invariant
            0 <= t <= cycle,
            n == weights@.len(),
            n > 0,
            ss == shares(ws),
            ss.len() == n,
            all_positive(ss),
            forall|i: int| 0 <= i < ss.len() ==> 1 <= #[trigger] ss[i] <= 0x8000,
            cycle == sum(ss),
            cycle <= n * 0x8000,
            parts@.len() == n,
            forall|i: int| 0 <= i < n ==> #[trigger] parts@[i] == ss[i],
            current@.len() == n,
            credits(ss, t as nat) == Seq::new(n as nat, |i: int| current@[i] as int),
            table@.len() == t,
            forall|s: int| 0 <= s < t ==> #[trigger] table@[s] == table_entry(turn(ss, s as nat)),
            forall|s: int| 0 <= s < t ==> #[trigger] table@[s] < n,
        decreases cycle - t,
    {
        let ghost before = credits(ss, t as nat);
        let ghost e = earned(ss, t as nat);
        proof {
            lemma_credits(ss, t as nat);
            lemma_turn_in_range(ss, t as nat);
        }
        let mut best: usize = 0;
        let mut i: usize = 0;
        while i < n
            invariant
                i <= n,
                n > 0,
                best < n,
                i == 0 ==> best == 0,
                i > 0 ==> best < i,
                0 <= t <= cycle,
                cycle <= n * 0x8000,
                n == ss.len(),
                parts@.len() == n,
                forall|j: int| 0 <= j < n ==> #[trigger] parts@[j] == ss[j],
                forall|j: int| 0 <= j < ss.len() ==> 1 <= #[trigger] ss[j] <= 0x8000,
                current@.len() == n,
                before == credits(ss, t as nat),
                e == earned(ss, t as nat),
                e.len() == n,
                before.len() == n,
                forall|j: int|
                    0 <= j < n ==> -cycle < #[trigger] before[j] == t * ss[j] - cycle
                        * turns_taken(ss, j, t as nat),
                forall|j: int| 0 <= j < n ==> 0 <= #[trigger] turns_taken(ss, j, t as nat),
                forall|j: int| 0 <= j < i ==> #[trigger] current@[j] == e[j],
                forall|j: int| i <= j < n ==> #[trigger] current@[j] == before[j],
                best == first_largest(e, i as int),
            decreases n - i,
        {
            proof {
                assert(before[i as int] == t * ss[i as int] - cycle * turns_taken(
                    ss,
                    i as int,
                    t as nat,
                ));
                assert(0 <= turns_taken(ss, i as int, t as nat));
                assert(before[i as int] <= 0x8000 * (0x8000 * n)) by (nonlinear_arith)
                    requires
                        before[i as int] == t * ss[i as int] - cycle * turns_taken(
                            ss,
                            i as int,
                            t as nat,
                        ),
                        0 <= turns_taken(ss, i as int, t as nat),
                        0 <= t <= cycle,
                        cycle <= n * 0x8000,
                        1 <= ss[i as int] <= 0x8000,
                ;
            }
            let updated: i128 = current[i] + parts[i];
            current.set(i, updated);
            assert(current@[i as int] == e[i as int]);
            if current[i] > current[best] {
                best = i;
            }
            i = i + 1;
        }
        let paid: i128 = current[best] - cycle;
        current.set(best, paid);
        assert(best == turn(ss, t as nat));
        let entry: u16 = if best <= 0xffff {
            best as u16
        } else {
            0
        };
        table.push(entry);
        t = t + 1;
        assert(credits(ss, t as nat) =~= Seq::new(n as nat, |i: int| current@[i] as int));
    }
    assert(table@ =~= weight_table(ws));
    table
}

} // verus!
