//! UTC timestamps, computed from the Unix epoch in the proleptic Gregorian calendar.

use vstd::prelude::*;
use vstd::string::*;

use crate::text::{decimal, joined, nat_text};

verus! {

/// A calendar date.
pub ghost struct Date {
    pub year: int,
    pub month: int,
    pub day: int,
}

/// Whether a year has a leap day.
pub open spec fn is_leap(year: int) -> bool {
    year % 4 == 0 && (year % 100 != 0 || year % 400 == 0)
}

/// How many days a month has.
pub open spec fn month_length(year: int, month: int) -> int {
    if month == 2 {
        if is_leap(year) {
            29
        } else {
            28
        }
    } else if month == 4 || month == 6 || month == 9 || month == 11 {
        30
    } else {
        31
    }
}

/// Whether the calendar has a date, from 1970 on.
pub open spec fn is_date(x: Date) -> bool {
    1970 <= x.year && 1 <= x.month <= 12 && 1 <= x.day <= month_length(x.year, x.month)
}

/// How many days of a year precede a month.
pub open spec fn days_before_month(year: int, month: int) -> int
    decreases month,
{
    if month <= 1 {
        0
    } else {
        days_before_month(year, month - 1) + month_length(year, month - 1)
    }
}

/// How many leap years there are among the years from 1 on that precede `year`.
pub open spec fn leap_years_before(year: int) -> int {
    (year - 1) / 4 - (year - 1) / 100 + (year - 1) / 400
}

/// How many days lie between the first day of 1970 and the first day of `year`.
pub open spec fn year_start(year: int) -> int {
    365 * (year - 1970) + leap_years_before(year) - leap_years_before(1970)
}

/// How many days lie between the first day of 1970 and a date.
pub open spec fn day_number(x: Date) -> int {
    year_start(x.year) + days_before_month(x.year, x.month) + x.day - 1
}

/// The date of a day, counted from the first day of 1970.
#[verifier::opaque]
pub open spec fn date_of(day: int) -> Date {
    choose|x: Date| is_date(x) && #[trigger] day_number(x) == day
}

/// How many days of a year precede each month.
pub proof fn month_starts(year: int)
    ensures
        days_before_month(year, 1) == 0,
        days_before_month(year, 2) == 31,
        days_before_month(year, 3) == 31 + month_length(year, 2),
        days_before_month(year, 4) == 62 + month_length(year, 2),
        days_before_month(year, 5) == 92 + month_length(year, 2),
        days_before_month(year, 6) == 123 + month_length(year, 2),
        days_before_month(year, 7) == 153 + month_length(year, 2),
        days_before_month(year, 8) == 184 + month_length(year, 2),
        days_before_month(year, 9) == 215 + month_length(year, 2),
        days_before_month(year, 10) == 245 + month_length(year, 2),
        days_before_month(year, 11) == 276 + month_length(year, 2),
        days_before_month(year, 12) == 306 + month_length(year, 2),
{
    reveal_with_fuel(days_before_month, 13);
}

/// The years follow each other without a gap.
pub proof fn lemma_years_follow(year: int)
    ensures
        year_start(year + 1) == year_start(year) + (if is_leap(year) {
            366int
        } else {
            365
        }),
{
    assert(year / 4 - (year - 1) / 4 == if year % 4 == 0 {
        1int
    } else {
        0
    });
    assert(year / 100 - (year - 1) / 100 == if year % 100 == 0 {
        1int
    } else {
        0
    });
    assert(year / 400 - (year - 1) / 400 == if year % 400 == 0 {
        1int
    } else {
        0
    });
    assert(year % 400 == 0 ==> year % 100 == 0);
    assert(year % 100 == 0 ==> year % 4 == 0);
}

/// No two dates are the same day.
pub proof fn lemma_dates_are_distinct(a: Date, b: Date)
    requires
        is_date(a),
        is_date(b),
        day_number(a) == day_number(b),
    ensures
        a == b,
{
    month_starts(a.year);
    month_starts(b.year);
    lemma_years_follow(a.year);
    lemma_years_follow(b.year);
    if a.year < b.year {
        assert(year_start(a.year + 1) <= year_start(b.year));
    } else if b.year < a.year {
        assert(year_start(b.year + 1) <= year_start(a.year));
    }
    assert(a.year == b.year);
    assert(a.month == b.month);
}

/// The day of a date has that date.
pub proof fn lemma_date_of(x: Date)
    requires
        is_date(x),
    ensures
        date_of(day_number(x)) == x,
{
    reveal(date_of);
    lemma_dates_are_distinct(date_of(day_number(x)), x);
}

/// A number in decimal, with noughts in front of it up to a width.
pub open spec fn zero_padded(n: nat, width: nat) -> Seq<char> {
    padded_with_noughts(nat_text(n), width)
}

/// A text with noughts in front of it up to a width.
pub open spec fn padded_with_noughts(s: Seq<char>, width: nat) -> Seq<char>
    decreases width - s.len(),
{
    if s.len() >= width {
        s
    } else {
        padded_with_noughts(seq!['0'] + s, width)
    }
}

/// [`zero_padded`], computed.
pub fn zero_pad(n: u64, width: usize) -> (out: String)
    ensures
        out@ == zero_padded(n as nat, width as nat),
{
    let mut out = decimal(n);
    let mut len: usize = out.as_str().unicode_len();
    proof {
        reveal_strlit("0");
        assert("0"@ =~= seq!['0']);
    }
    while len < width
        invariant
            "0"@ == seq!['0'],
            len == out@.len(),
            padded_with_noughts(out@, width as nat) == zero_padded(n as nat, width as nat),
        decreases width - len,
    {
        out = joined("0", out.as_str());
        len = len + 1;
    }
    out
}

/// A date and a time of day in ISO 8601.
pub open spec fn stamp(date: Date, second: int) -> Seq<char> {
    zero_padded(date.year as nat, 4) + "-"@ + zero_padded(date.month as nat, 2) + "-"@
        + zero_padded(date.day as nat, 2) + "T"@ + zero_padded((second / 3_600) as nat, 2) + ":"@
        + zero_padded(((second % 3_600) / 60) as nat, 2) + ":"@ + zero_padded(
        (second % 60) as nat,
        2,
    ) + "Z"@
}

/// How many days lie between the first of March of the year 0 and that of `year`.
spec fn march_start(year: int) -> int {
    365 * year + year / 4 - year / 100 + year / 400
}

proof fn lemma_march(year: int)
    ensures
        year_start(year) + 31 + month_length(year, 2) == march_start(year) - 719_468,
        year_start(year + 1) == march_start(year) + 306 - 719_468,
{
}

proof fn lemma_march_parts(era: int, century: int, quad: int, year: int)
    requires
        0 <= era,
        0 <= century <= 3,
        0 <= quad <= 24,
        0 <= year <= 3,
    ensures
        march_start(400 * era + 100 * century + 4 * quad + year) == 146_097 * era + 36_524
            * century + 1_461 * quad + 365 * year,
{
    let y = 400 * era + 100 * century + 4 * quad + year;
    assert(y / 4 == 100 * era + 25 * century + quad);
    assert(y / 100 == 4 * era + century);
    assert(y / 400 == era);
}

/// The month of a year that begins in March in which its `in_year`-th day lies: the
/// month, how many days precede it, and how many years it lies ahead.
spec fn march_month(in_year: int) -> (int, int, int) {
    if in_year < 31 {
        (3, 0, 0)
    } else if in_year < 61 {
        (4, 31, 0)
    } else if in_year < 92 {
        (5, 61, 0)
    } else if in_year < 122 {
        (6, 92, 0)
    } else if in_year < 153 {
        (7, 122, 0)
    } else if in_year < 184 {
        (8, 153, 0)
    } else if in_year < 214 {
        (9, 184, 0)
    } else if in_year < 245 {
        (10, 214, 0)
    } else if in_year < 275 {
        (11, 245, 0)
    } else if in_year < 306 {
        (12, 275, 0)
    } else if in_year < 337 {
        (1, 306, 1)
    } else {
        (2, 337, 1)
    }
}

proof fn lemma_leap_day(era: int, century: int, quad: int)
    requires
        0 <= century <= 3,
        0 <= quad <= 24,
        quad == 24 ==> century == 3,
    ensures
        is_leap(400 * era + 100 * century + 4 * quad + 4),
{
    let y = 400 * era + 100 * century + 4 * quad + 4;
    assert(y % 4 == 0);
    if quad < 24 {
        assert(y % 100 == 4 * quad + 4);
    } else {
        assert(y == 400 * (era + 1));
        assert(y % 400 == 0);
    }
}

proof fn lemma_march_date(march: int, in_year: int, days: int)
    requires
        0 <= days,
        march_start(march) + in_year == days + 719_468,
        0 <= march,
        0 <= in_year <= 365,
        in_year == 365 ==> is_leap(march + 1),
    ensures
        ({
            let (month, before, next) = march_month(in_year);
            let x = Date { year: march + next, month, day: in_year - before + 1 };
            is_date(x) && day_number(x) == days
        }),
{
    lemma_march(march);
    month_starts(march);
    month_starts(march + 1);
    let (month, before, next) = march_month(in_year);
    let x = Date { year: march + next, month, day: in_year - before + 1 };
    assert(day_number(x) == days);
    assert(march >= 1969) by {
        if march < 1969 {
            assert(march_start(march) <= march_start(1968));
        }
    }
    assert(march == 1969 ==> in_year >= 306);
    assert(x.day <= month_length(x.year, x.month));
}

/// Every day from the first of 1970 on has a date.
pub proof fn lemma_date_exists(days: int)
    requires
        0 <= days,
    ensures
        is_date(date_of(days)),
        day_number(date_of(days)) == days,
{
    let z = days + 719_468;
    let era = z / 146_097;
    let in_era = z % 146_097;
    let century = if in_era / 36_524 > 3 {
        3
    } else {
        in_era / 36_524
    };
    let in_century = in_era - 36_524 * century;
    let quad = in_century / 1_461;
    let in_quad = in_century % 1_461;
    let year = if in_quad / 365 > 3 {
        3
    } else {
        in_quad / 365
    };
    let in_year = in_quad - 365 * year;
    let march = 400 * era + 100 * century + 4 * quad + year;
    assert(in_century <= 36_524 && (in_century == 36_524 ==> century == 3));
    assert(quad <= 24);
    lemma_march_parts(era, century, quad, year);
    assert(in_year <= 365);
    if in_year == 365 {
        assert(year == 3);
        assert(quad == 24 ==> century == 3);
        lemma_leap_day(era, century, quad);
    }
    lemma_march_date(march, in_year, days);
    let (month, before, next) = march_month(in_year);
    lemma_date_of(Date { year: march + next, month, day: in_year - before + 1 });
}

/// The date of a day, counted from the first day of 1970, as year, month and day.
fn civil(days: u64) -> (r: (u64, u64, u64))
    requires
        days <= 0x1_0000_0000_0000,
    ensures
        r.0 == date_of(days as int).year,
        r.1 == date_of(days as int).month,
        r.2 == date_of(days as int).day,
        is_date(date_of(days as int)),
        day_number(date_of(days as int)) == days,
{
    // Years are counted from March, so that leap days come last.
    let z: u64 = days + 719_468;
    let era: u64 = z / 146_097;
    let in_era: u64 = z % 146_097;
    let century: u64 = if in_era / 36_524 > 3 {
        3
    } else {
        in_era / 36_524
    };
    let in_century: u64 = in_era - 36_524 * century;
    let quad: u64 = in_century / 1_461;
    let in_quad: u64 = in_century % 1_461;
    let year: u64 = if in_quad / 365 > 3 {
        3
    } else {
        in_quad / 365
    };
    let in_year: u64 = in_quad - 365 * year;
    let march: u64 = 400 * era + 100 * century + 4 * quad + year;
    proof {
        assert(in_century <= 36_524 && (in_century == 36_524 ==> century == 3));
        assert(quad <= 24);
        lemma_march_parts(era as int, century as int, quad as int, year as int);
        assert(in_year <= 365);
        if in_year == 365 {
            assert(year == 3);
            assert(quad == 24 ==> century == 3);
            lemma_leap_day(era as int, century as int, quad as int);
        }
        lemma_march_date(march as int, in_year as int, days as int);
        let (month, before, next) = march_month(in_year as int);
        lemma_date_of(Date { year: march + next, month, day: in_year - before + 1 });
    }
    let (month, before, next): (u64, u64, u64) = month_of(in_year);
    (march + next, month, in_year - before + 1)
}

/// [`march_month`], computed.
fn month_of(in_year: u64) -> (r: (u64, u64, u64))
    ensures
        (r.0 as int, r.1 as int, r.2 as int) == march_month(in_year as int),
        r.1 <= in_year,
        r.2 <= 1,
{
    if in_year < 31 {
        (3, 0, 0)
    } else if in_year < 61 {
        (4, 31, 0)
    } else if in_year < 92 {
        (5, 61, 0)
    } else if in_year < 122 {
        (6, 92, 0)
    } else if in_year < 153 {
        (7, 122, 0)
    } else if in_year < 184 {
        (8, 153, 0)
    } else if in_year < 214 {
        (9, 184, 0)
    } else if in_year < 245 {
        (10, 214, 0)
    } else if in_year < 275 {
        (11, 245, 0)
    } else if in_year < 306 {
        (12, 275, 0)
    } else if in_year < 337 {
        (1, 306, 1)
    } else {
        (2, 337, 1)
    }
}

/// A moment, in seconds since the Unix epoch, in ISO 8601.
#[must_use]
pub fn format_iso8601(unix_secs: u64) -> (r: String)
    ensures
        r@ == stamp(date_of(unix_secs as int / 86_400), unix_secs as int % 86_400),
        is_date(date_of(unix_secs as int / 86_400)),
        day_number(date_of(unix_secs as int / 86_400)) == unix_secs as int / 86_400,
{
    let (year, month, day): (u64, u64, u64) = civil(unix_secs / 86_400);
    let rem: u64 = unix_secs % 86_400;
    let mut out = zero_pad(year, 4);
    out.append("-");
    out.append(zero_pad(month, 2).as_str());
    out.append("-");
    out.append(zero_pad(day, 2).as_str());
    out.append("T");
    out.append(zero_pad(rem / 3_600, 2).as_str());
    out.append(":");
    out.append(zero_pad((rem % 3_600) / 60, 2).as_str());
    out.append(":");
    out.append(zero_pad(rem % 60, 2).as_str());
    out.append("Z");
    out
}

} // verus!
