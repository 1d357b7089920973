//! Timestamps sort as the moments that they name.

use vstd::prelude::*;
use vstd::string::*;

use crate::bench::calendar::{
    date_of, day_number, is_date, lemma_date_exists, lemma_years_follow, month_starts,
    padded_with_noughts, stamp, year_start, zero_padded, Date,
};
use crate::bench::order::text_le;
use crate::text::{digit_char, nat_text};

verus! {

/// Whether one text comes before another: where they first differ, its character does.
pub open spec fn precedes(a: Seq<char>, b: Seq<char>) -> bool {
    exists|i: int| differs_at(a, b, i)
}

/// Whether two texts agree up to a place, and there the first one's character comes
/// before the other's.
pub open spec fn differs_at(a: Seq<char>, b: Seq<char>, i: int) -> bool {
    0 <= i < a.len() && i < b.len() && a.take(i) == b.take(i) && (a[i] as u32) < (b[i] as u32)
}

/// The largest number of `w` digits, and one.
spec fn ten_to(w: nat) -> int
    decreases w,
{
    if w == 0 {
        1
    } else {
        10 * ten_to((w - 1) as nat)
    }
}

/// The last `w` digits of a number.
spec fn digits(n: int, w: nat) -> Seq<char>
    decreases w,
{
    if w == 0 {
        Seq::empty()
    } else {
        digits(n / 10, (w - 1) as nat).push(digit_char(n % 10))
    }
}

proof fn lemma_pad_push(s: Seq<char>, c: char, w: nat)
    ensures
        padded_with_noughts(s.push(c), w + 1) == padded_with_noughts(s, w).push(c),
    decreases w - s.len(),
{
    if s.len() < w {
        lemma_pad_push(seq!['0'] + s, c, w);
        assert(seq!['0'] + s.push(c) =~= (seq!['0'] + s).push(c));
    }
}

proof fn lemma_noughts(w: nat)
    ensures
        padded_with_noughts(Seq::empty(), w) == digits(0, w),
    decreases w,
{
    if w > 0 {
        let v = (w - 1) as nat;
        lemma_noughts(v);
        lemma_pad_push(Seq::empty(), '0', v);
        assert(seq!['0'] + Seq::<char>::empty() =~= Seq::<char>::empty().push('0'));
    }
}

/// A padded number is its digits.
proof fn lemma_padded_is_digits(n: int, w: nat)
    requires
        0 <= n < ten_to(w),
        w > 0,
    ensures
        zero_padded(n as nat, w) == digits(n, w),
        digits(n, w).len() == w,
    decreases w,
{
    let v = (w - 1) as nat;
    let c = digit_char(n % 10);
    lemma_digits_len(n, w);
    if n < 10 {
        assert(n / 10 == 0 && n % 10 == n);
        lemma_noughts(v);
        lemma_pad_push(Seq::empty(), c, v);
        assert(nat_text(n as nat) =~= Seq::<char>::empty().push(c));
    } else {
        assert(v > 0) by {
            if v == 0 {
                assert(ten_to(0) == 1);
            }
        }
        lemma_padded_is_digits(n / 10, v);
        lemma_pad_push(nat_text((n / 10) as nat), c, v);
        assert(nat_text(n as nat) == nat_text((n / 10) as nat).push(c));
    }
}

proof fn lemma_digits_len(n: int, w: nat)
    ensures
        digits(n, w).len() == w,
    decreases w,
{
    if w > 0 {
        lemma_digits_len(n / 10, (w - 1) as nat);
    }
}

/// Of two numbers with the same number of digits, the smaller comes first.
proof fn lemma_digits_sort(n: int, m: int, w: nat)
    requires
        0 <= n < m < ten_to(w),
    ensures
        precedes(digits(n, w), digits(m, w)),
    decreases w,
{
    assert(w > 0) by {
        assert(ten_to(0) == 1);
    }
    let v = (w - 1) as nat;
    let a = digits(n, w);
    let b = digits(m, w);
    lemma_digits_len(n / 10, v);
    lemma_digits_len(m / 10, v);
    if n / 10 < m / 10 {
        lemma_digits_sort(n / 10, m / 10, v);
        let c = digits(n / 10, v);
        let d = digits(m / 10, v);
        let i = choose|i: int| differs_at(c, d, i);
        assert(a.take(i) =~= c.take(i));
        assert(b.take(i) =~= d.take(i));
        assert(differs_at(a, b, i));
    } else {
        assert(n / 10 == m / 10 && n % 10 < m % 10);
        assert(a.take(v as int) =~= b.take(v as int));
        assert(differs_at(a, b, v as int));
    }
}

/// Whether two texts are the same so far, or the first one comes before.
spec fn so_far(a: Seq<char>, b: Seq<char>, less: bool) -> bool {
    if less {
        precedes(a, b)
    } else {
        a == b
    }
}

proof fn lemma_more(a: Seq<char>, b: Seq<char>, x: Seq<char>, y: Seq<char>)
    ensures
        precedes(a, b) ==> precedes(a + x, b + y),
        a == b && precedes(x, y) ==> precedes(a + x, b + y),
{
    if precedes(a, b) {
        let i = choose|i: int| differs_at(a, b, i);
        assert((a + x).take(i) =~= a.take(i));
        assert((b + y).take(i) =~= b.take(i));
        assert(differs_at(a + x, b + y, i));
    }
    if a == b && precedes(x, y) {
        let i = choose|i: int| differs_at(x, y, i);
        let k = a.len() + i;
        assert((a + x).take(k) =~= a + x.take(i));
        assert((b + y).take(k) =~= b + y.take(i));
        assert(differs_at(a + x, b + y, k));
    }
}

proof fn lemma_add_field(
    a: Seq<char>,
    b: Seq<char>,
    n: int,
    m: int,
    w: nat,
    less: bool,
    behind: Seq<char>,
)
    requires
        w == 2 || w == 4,
        0 <= n < ten_to(w),
        0 <= m < ten_to(w),
        !less ==> n <= m,
        so_far(a, b, less),
    ensures
        so_far(
            a + zero_padded(n as nat, w) + behind,
            b + zero_padded(m as nat, w) + behind,
            less || n < m,
        ),
        zero_padded(n as nat, w).len() == w,
{
    lemma_padded_is_digits(n, w);
    lemma_padded_is_digits(m, w);
    let x = zero_padded(n as nat, w);
    let y = zero_padded(m as nat, w);
    if n < m {
        lemma_digits_sort(n, m, w);
    }
    lemma_more(a, b, x, y);
    lemma_more(a + x, b + y, behind, behind);
}

/// An earlier day has a date that is earlier by year, then by month, then by day.
proof fn lemma_dates_sort(a: Date, b: Date)
    requires
        is_date(a),
        is_date(b),
        day_number(a) <= day_number(b),
    ensures
        a.year <= b.year,
        a.year == b.year ==> a.month <= b.month,
        a.year == b.year && a.month == b.month ==> a.day <= b.day,
        day_number(a) == day_number(b) ==> a == b,
        day_number(a) < day_number(b) ==> a != b,
{
    month_starts(a.year);
    month_starts(b.year);
    lemma_years_follow(a.year);
    lemma_years_follow(b.year);
    if b.year < a.year {
        assert(year_start(b.year + 1) <= year_start(a.year));
    }
    if a.year < b.year {
        assert(year_start(a.year + 1) <= year_start(b.year));
    }
}

/// What a moment is written as, in seconds since the Unix epoch.
pub open spec fn written(secs: int) -> Seq<char> {
    stamp(date_of(secs / 86_400), secs % 86_400)
}

/// Timestamps are ordered as the moments that they name, up to the year 9999, and have
/// twenty characters.
pub proof fn lemma_stamps_sort(a: int, b: int)
    requires
        0 <= a < b < 253_402_300_800,
    ensures
        text_le(written(a), written(b)),
        written(a) != written(b),
        written(a).len() == 20,
        written(b).len() == 20,
{
    let x = date_of(a / 86_400);
    let y = date_of(b / 86_400);
    let s = a % 86_400;
    let t = b % 86_400;
    lemma_date_exists(a / 86_400);
    lemma_date_exists(b / 86_400);
    lemma_four_digit_year(x);
    lemma_four_digit_year(y);
    lemma_dates_sort(x, y);
    lemma_stamp(x, y, s, t);
    lemma_stamp(y, y, t, t);
    lemma_precedes_is_less(written(a), written(b));
}

proof fn lemma_four_digit_year(x: Date)
    requires
        is_date(x),
        day_number(x) < 2_932_897,
    ensures
        x.year < 10_000,
{
    month_starts(x.year);
    if x.year >= 10_000 {
        assert(year_start(10_000) == 2_932_897);
        assert(year_start(x.year) >= year_start(10_000));
    }
}

/// The stamps of two moments, the first of which is not the later one.
proof fn lemma_stamp(x: Date, y: Date, s: int, t: int)
    requires
        is_date(x),
        is_date(y),
        x.year < 10_000,
        y.year < 10_000,
        x.year <= y.year,
        x.year == y.year ==> x.month <= y.month,
        x.year == y.year && x.month == y.month ==> x.day <= y.day,
        x == y ==> s <= t,
        0 <= s < 86_400,
        0 <= t < 86_400,
    ensures
        x != y || s < t ==> precedes(stamp(x, s), stamp(y, t)),
        stamp(x, s).len() == 20,
{
    reveal_with_fuel(ten_to, 5);
    reveal_strlit("-");
    reveal_strlit("T");
    reveal_strlit(":");
    reveal_strlit("Z");
    let none = Seq::<char>::empty();
    let l1 = x.year < y.year;
    lemma_add_field(none, none, x.year, y.year, 4, false, "-"@);
    assert(none + zero_padded(x.year as nat, 4) =~= zero_padded(x.year as nat, 4));
    assert(none + zero_padded(y.year as nat, 4) =~= zero_padded(y.year as nat, 4));
    let a1 = zero_padded(x.year as nat, 4) + "-"@;
    let b1 = zero_padded(y.year as nat, 4) + "-"@;
    let l2 = l1 || x.month < y.month;
    lemma_add_field(a1, b1, x.month, y.month, 2, l1, "-"@);
    let a2 = a1 + zero_padded(x.month as nat, 2) + "-"@;
    let b2 = b1 + zero_padded(y.month as nat, 2) + "-"@;
    let l3 = l2 || x.day < y.day;
    lemma_add_field(a2, b2, x.day, y.day, 2, l2, "T"@);
    let a3 = a2 + zero_padded(x.day as nat, 2) + "T"@;
    let b3 = b2 + zero_padded(y.day as nat, 2) + "T"@;
    assert(!l3 ==> x == y);
    let l4 = l3 || s / 3_600 < t / 3_600;
    lemma_add_field(a3, b3, s / 3_600, t / 3_600, 2, l3, ":"@);
    let a4 = a3 + zero_padded((s / 3_600) as nat, 2) + ":"@;
    let b4 = b3 + zero_padded((t / 3_600) as nat, 2) + ":"@;
    let l5 = l4 || (s % 3_600) / 60 < (t % 3_600) / 60;
    lemma_add_field(a4, b4, (s % 3_600) / 60, (t % 3_600) / 60, 2, l4, ":"@);
    let a5 = a4 + zero_padded(((s % 3_600) / 60) as nat, 2) + ":"@;
    let b5 = b4 + zero_padded(((t % 3_600) / 60) as nat, 2) + ":"@;
    lemma_add_field(a5, b5, s % 60, t % 60, 2, l5, "Z"@);
}

proof fn lemma_precedes_is_less(a: Seq<char>, b: Seq<char>)
    requires
        precedes(a, b),
    ensures
        text_le(a, b),
        a != b,
    decreases a.len(),
{
    let i = choose|i: int| differs_at(a, b, i);
    if i > 0 {
        assert(a.take(i)[0] == a[0] && b.take(i)[0] == b[0]);
        assert(a.skip(1).take(i - 1) =~= a.take(i).skip(1));
        assert(b.skip(1).take(i - 1) =~= b.take(i).skip(1));
        assert(differs_at(a.skip(1), b.skip(1), i - 1));
        lemma_precedes_is_less(a.skip(1), b.skip(1));
    }
}

} // verus!
