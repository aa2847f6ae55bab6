//! Minimal IMF-fixdate (RFC 7231 §7.1.1.1) formatter. No date *parser* yet —
//! revalidation leans on ETags, which is the more reliable mechanism anyway.

use crate::headers::{is_plain, lemma_decimal_is_plain, lemma_plain_concat};
use crate::text::{decimal, push_decimal};
use vstd::prelude::*;
use vstd::string::*;

verus! {

pub open spec fn leap(y: int) -> bool {
    (y % 4 == 0 && y % 100 != 0) || y % 400 == 0
}

pub open spec fn year_days(y: int) -> int {
    if leap(y) {
        366
    } else {
        365
    }
}

/// The number of days in month `m` (January is `0`).
pub open spec fn month_days(y: int, m: int) -> int {
    if m == 1 {
        if leap(y) {
            29
        } else {
            28
        }
    } else if m == 3 || m == 5 || m == 8 || m == 10 {
        30
    } else {
        31
    }
}

/// A day of the calendar; months and days count from one.
pub struct Date {
    pub year: int,
    pub month: int,
    pub day: int,
}

/// The day `days` days into the year `y` or a later one.
pub open spec fn date_from(y: int, days: int) -> Date
    decreases days,
{
    if days < year_days(y) {
        date_in(y, 0, days)
    } else {
        date_from(y + 1, days - year_days(y))
    }
}

/// The day `days` days into month `m` of the year `y` or a later month.
pub open spec fn date_in(y: int, m: int, days: int) -> Date
    decreases 12 - m,
{
    if m >= 12 || days < month_days(y, m) {
        Date { year: y, month: m + 1, day: days + 1 }
    } else {
        date_in(y, m + 1, days - month_days(y, m))
    }
}

/// The date `days` days after 1970-01-01.
pub open spec fn date_of(days: int) -> Date {
    date_from(1970, days)
}

pub open spec fn weekday_name(n: int) -> Seq<char> {
    if n == 0 {
        "Sun"@
    } else if n == 1 {
        "Mon"@
    } else if n == 2 {
        "Tue"@
    } else if n == 3 {
        "Wed"@
    } else if n == 4 {
        "Thu"@
    } else if n == 5 {
        "Fri"@
    } else {
        "Sat"@
    }
}

pub open spec fn month_name(n: int) -> Seq<char> {
    if n == 1 {
        "Jan"@
    } else if n == 2 {
        "Feb"@
    } else if n == 3 {
        "Mar"@
    } else if n == 4 {
        "Apr"@
    } else if n == 5 {
        "May"@
    } else if n == 6 {
        "Jun"@
    } else if n == 7 {
        "Jul"@
    } else if n == 8 {
        "Aug"@
    } else if n == 9 {
        "Sep"@
    } else if n == 10 {
        "Oct"@
    } else if n == 11 {
        "Nov"@
    } else {
        "Dec"@
    }
}

/// `n` with zeros in front up to two digits.
pub open spec fn two(n: int) -> Seq<char> {
    if n < 10 {
        "0"@ + decimal(n as nat)
    } else {
        decimal(n as nat)
    }
}

/// `n` with zeros in front up to four digits.
pub open spec fn four(n: int) -> Seq<char> {
    if n < 10 {
        "000"@ + decimal(n as nat)
    } else if n < 100 {
        "00"@ + decimal(n as nat)
    } else if n < 1000 {
        "0"@ + decimal(n as nat)
    } else {
        decimal(n as nat)
    }
}

/// The HTTP date of a Unix time. 1970-01-01 was a Thursday. Years are written
/// modulo 2^32.
pub open spec fn http_date(secs: int) -> Seq<char> {
    let d = date_of(secs / 86400);
    weekday_name((secs / 86400 + 4) % 7) + ", "@ + two(d.day) + " "@ + month_name(d.month) + " "@
        + four(d.year % 0x1_0000_0000) + " "@ + two(secs % 86400 / 3600) + ":"@ + two(
        secs % 3600 / 60,
    ) + ":"@ + two(secs % 60) + " GMT"@
}

fn is_leap(y: u64) -> (r: bool)
    ensures
        r == leap(y as int),
{
    (y % 4 == 0 && y % 100 != 0) || y % 400 == 0
}

/// The year, month and day `days` days after 1970-01-01.
pub fn days_to_date(days: u64) -> (r: (u64, u64, u64))
    requires
        days <= u64::MAX / 86400,
    ensures
        date_of(days as int) == (Date { year: r.0 as int, month: r.1 as int, day: r.2 as int }),
        1 <= r.1 <= 12,
{
    let mut left: u64 = days;
    let mut year: u64 = 1970;
    loop
        invariant
            date_from(year as int, left as int) == date_of(days as int),
            year <= 1970 + (days - left),
            left <= days <= u64::MAX / 86400,
        ensures
            left < year_days(year as int),
            date_from(year as int, left as int) == date_of(days as int),
        decreases left,
    {
        let n: u64 = if is_leap(year) { 366 } else { 365 };
        if left < n {
            break;
        }
        left = left - n;
        year = year + 1;
    }
    let leap_year = is_leap(year);
    let mut month: u64 = 0;
    let ghost start = left;
    proof {
        lemma_months(year as int);
    }
    while month < 11
        invariant_except_break
            left < rest_of_year(year as int, month as int),
        invariant
            month <= 11,
            leap_year == leap(year as int),
            rest_of_year(year as int, 12) == 0,
            date_in(year as int, month as int, left as int) == date_of(days as int),
        ensures
            left < month_days(year as int, month as int),
        decreases 11 - month,
    {
        let n: u64 = if month == 1 {
            if leap_year {
                29
            } else {
                28
            }
        } else if month == 3 || month == 5 || month == 8 || month == 10 {
            30
        } else {
            31
        };
        if left < n {
            break;
        }
        left = left - n;
        month = month + 1;
    }
    (year, month + 1, left + 1)
}

/// The days from the first of month `m` to the end of the year.
pub open spec fn rest_of_year(y: int, m: int) -> int
    decreases 12 - m,
{
    if m >= 12 {
        0
    } else {
        month_days(y, m) + rest_of_year(y, m + 1)
    }
}

proof fn lemma_months(y: int)
    ensures
        rest_of_year(y, 0) == year_days(y),
{
    reveal_with_fuel(rest_of_year, 13);
}

fn push_two(out: &mut String, n: u64)
    ensures
        final(out)@ == old(out)@ + two(n as int),
{
    let ghost start = out@;
    if n < 10 {
        out.append("0");
    }
    push_decimal(out, n);
    assert(out@ =~= start + two(n as int));
}

fn push_four(out: &mut String, n: u64)
    ensures
        final(out)@ == old(out)@ + four(n as int),
{
    let ghost start = out@;
    if n < 10 {
        out.append("000");
    } else if n < 100 {
        out.append("00");
    } else if n < 1000 {
        out.append("0");
    }
    push_decimal(out, n);
    assert(out@ =~= start + four(n as int));
}

fn weekday(n: u64) -> (r: &'static str)
    ensures
        r@ == weekday_name(n as int),
{
    if n == 0 {
        "Sun"
    } else if n == 1 {
        "Mon"
    } else if n == 2 {
        "Tue"
    } else if n == 3 {
        "Wed"
    } else if n == 4 {
        "Thu"
    } else if n == 5 {
        "Fri"
    } else {
        "Sat"
    }
}

fn month(n: u64) -> (r: &'static str)
    ensures
        r@ == month_name(n as int),
{
    if n == 1 {
        "Jan"
    } else if n == 2 {
        "Feb"
    } else if n == 3 {
        "Mar"
    } else if n == 4 {
        "Apr"
    } else if n == 5 {
        "May"
    } else if n == 6 {
        "Jun"
    } else if n == 7 {
        "Jul"
    } else if n == 8 {
        "Aug"
    } else if n == 9 {
        "Sep"
    } else if n == 10 {
        "Oct"
    } else if n == 11 {
        "Nov"
    } else {
        "Dec"
    }
}

/// Format a Unix-epoch second count as an HTTP date:
/// `Sun, 06 Nov 1994 08:49:37 GMT`.
pub fn format(secs: u64) -> (r: String)
    ensures
        r@ == http_date(secs as int),
{
    let days: u64 = secs / 86400;
    let tod: u64 = secs % 86400;
    let (y, m, d) = days_to_date(days);
    let mut out = weekday((days + 4) % 7).to_owned();
    out.append(", ");
    push_two(&mut out, d);
    out.append(" ");
    out.append(month(m));
    out.append(" ");
    push_four(&mut out, y % 0x1_0000_0000);
    out.append(" ");
    push_two(&mut out, tod / 3600);
    out.append(":");
    push_two(&mut out, secs % 3600 / 60);
    out.append(":");
    push_two(&mut out, secs % 60);
    out.append(" GMT");
    out
}

// ---------------------------------------------------------------------------
// Laws
// ---------------------------------------------------------------------------

/// The days from 1970-01-01 to the first of January of the year `y`.
pub open spec fn days_before_year(y: int) -> int
    decreases y - 1970,
{
    if y <= 1970 {
        0
    } else {
        days_before_year(y - 1) + year_days(y - 1)
    }
}

/// The days of the year `y` before month `m` (January is `1`).
pub open spec fn days_before_month(y: int, m: int) -> int
    decreases m,
{
    if m <= 1 {
        0
    } else {
        days_before_month(y, m - 1) + month_days(y, m - 2)
    }
}

/// The day after a day.
pub open spec fn next_day(d: Date) -> Date {
    if d.day < month_days(d.year, d.month - 1) {
        Date { day: d.day + 1, ..d }
    } else if d.month < 12 {
        Date { year: d.year, month: d.month + 1, day: 1 }
    } else {
        Date { year: d.year + 1, month: 1, day: 1 }
    }
}

proof fn lemma_rest_of_year(y: int, m: int)
    ensures
        rest_of_year(y, m) >= 0,
    decreases 12 - m,
{
    if m < 12 {
        lemma_rest_of_year(y, m + 1);
    }
}

proof fn lemma_next_in_year(y: int, m: int, days: int)
    requires
        0 <= m < 12,
        0 <= days < rest_of_year(y, m),
    ensures
        days + 1 < rest_of_year(y, m) ==> date_in(y, m, days + 1) == next_day(date_in(y, m, days)),
        days + 1 == rest_of_year(y, m) ==> date_in(y, m, days) == (Date {
            year: y,
            month: 12,
            day: 31,
        }),
    decreases 12 - m,
{
    reveal_with_fuel(date_in, 2);
    reveal_with_fuel(rest_of_year, 2);
    lemma_rest_of_year(y, m + 2);
    if m < 11 && days >= month_days(y, m) {
        lemma_next_in_year(y, m + 1, days - month_days(y, m));
    }
}

proof fn lemma_next_day(y: int, days: int)
    requires
        days >= 0,
    ensures
        date_from(y, days + 1) == next_day(date_from(y, days)),
    decreases days,
{
    lemma_months(y);
    reveal_with_fuel(date_from, 2);
    if days < year_days(y) {
        lemma_next_in_year(y, 0, days);
        if days + 1 == year_days(y) {
            reveal_with_fuel(date_in, 2);
        }
    } else {
        lemma_next_day(y + 1, days - year_days(y));
    }
}

/// One day more is the next day of the calendar.
pub proof fn law_days_follow_one_another(days: int)
    requires
        days >= 0,
    ensures
        date_of(days + 1) == next_day(date_of(days)),
{
    lemma_next_day(1970, days);
}

/// Number of multiples of 4, 100 or 400 up to `n`, one year further on.
proof fn lemma_quarters(n: int)
    ensures
        n / 4 == (n - 1) / 4 + (if n % 4 == 0 {
            1int
        } else {
            0
        }),
{
}

proof fn lemma_centuries(n: int)
    ensures
        n / 100 == (n - 1) / 100 + (if n % 100 == 0 {
            1int
        } else {
            0
        }),
        n % 100 == 0 ==> n % 4 == 0,
{
}

proof fn lemma_cycles(n: int)
    ensures
        n / 400 == (n - 1) / 400 + (if n % 400 == 0 {
            1int
        } else {
            0
        }),
        n % 400 == 0 ==> n % 100 == 0,
{
}

proof fn lemma_year_starts(y: int)
    requires
        y >= 1970,
    ensures
        days_before_year(y) == 365 * (y - 1970) + (y - 1) / 4 - (y - 1) / 100 + (y - 1) / 400 - 477,
    decreases y,
{
    if y > 1970 {
        let n = y - 1;
        lemma_year_starts(n);
        lemma_quarters(n);
        lemma_centuries(n);
        lemma_cycles(n);
        assert(year_days(n) == 365 + (n / 4 - (n - 1) / 4) - (n / 100 - (n - 1) / 100) + (n / 400
            - (n - 1) / 400));
    }
}

proof fn lemma_years_grow(a: int, b: int)
    requires
        1970 <= a <= b,
    ensures
        days_before_year(a) <= days_before_year(b),
    decreases b,
{
    if a < b {
        lemma_years_grow(a, b - 1);
    }
}

/// Up to the end of the year 9999 a year has four digits.
pub proof fn law_years_have_four_digits(days: int)
    requires
        0 <= days <= 2_932_896,
    ensures
        1970 <= date_of(days).year <= 9999,
{
    law_date_counts_back(days);
    let d = date_of(days);
    lemma_before_month(d.year, d.month);
    if d.year >= 10000 {
        lemma_years_grow(10000, d.year);
        lemma_year_starts(10000);
    }
}

proof fn lemma_before_month(y: int, m: int)
    ensures
        days_before_month(y, m) >= 0,
    decreases m,
{
    if m > 1 {
        lemma_before_month(y, m - 1);
    }
}

/// Every date is a day of the calendar, and counting back from it gives the
/// number of days it was made from.
pub proof fn law_date_counts_back(days: int)
    requires
        days >= 0,
    ensures
        ({
            let d = date_of(days);
            &&& d.year >= 1970
            &&& 1 <= d.month <= 12
            &&& 1 <= d.day <= month_days(d.year, d.month - 1)
            &&& days_before_year(d.year) + days_before_month(d.year, d.month) + d.day - 1 == days
        }),
{
    lemma_year(1970, days, days);
}

proof fn lemma_year(y: int, left: int, days: int)
    requires
        y >= 1970,
        left >= 0,
        days_before_year(y) + left == days,
    ensures
        ({
            let d = date_from(y, left);
            &&& d.year >= 1970
            &&& 1 <= d.month <= 12
            &&& 1 <= d.day <= month_days(d.year, d.month - 1)
            &&& days_before_year(d.year) + days_before_month(d.year, d.month) + d.day - 1 == days
        }),
    decreases left,
{
    if left < year_days(y) {
        lemma_months(y);
        lemma_month(y, 0, left, days);
    } else {
        lemma_year(y + 1, left - year_days(y), days);
    }
}

proof fn lemma_month(y: int, m: int, left: int, days: int)
    requires
        y >= 1970,
        0 <= m < 12,
        0 <= left < rest_of_year(y, m),
        days_before_year(y) + days_before_month(y, m + 1) + left == days,
    ensures
        ({
            let d = date_in(y, m, left);
            &&& d.year == y
            &&& 1 <= d.month <= 12
            &&& 1 <= d.day <= month_days(y, d.month - 1)
            &&& days_before_year(y) + days_before_month(y, d.month) + d.day - 1 == days
        }),
    decreases 12 - m,
{
    if left >= month_days(y, m) {
        if m == 11 {
            assert(rest_of_year(y, 12) == 0);
        } else {
            lemma_month(y, m + 1, left - month_days(y, m), days);
        }
    }
}

proof fn lemma_two_is_plain(n: int)
    ensures
        is_plain(two(n)),
{
    reveal_strlit("0");
    lemma_decimal_is_plain(n as nat);
    lemma_plain_concat("0"@, decimal(n as nat));
}

proof fn lemma_four_is_plain(n: int)
    ensures
        is_plain(four(n)),
{
    reveal_strlit("0");
    reveal_strlit("00");
    reveal_strlit("000");
    lemma_decimal_is_plain(n as nat);
    lemma_plain_concat("0"@, decimal(n as nat));
    lemma_plain_concat("00"@, decimal(n as nat));
    lemma_plain_concat("000"@, decimal(n as nat));
}

proof fn lemma_names_are_plain(n: int)
    ensures
        is_plain(weekday_name(n)),
        is_plain(month_name(n)),
{
    reveal_strlit("Sun");
    reveal_strlit("Mon");
    reveal_strlit("Tue");
    reveal_strlit("Wed");
    reveal_strlit("Thu");
    reveal_strlit("Fri");
    reveal_strlit("Sat");
    reveal_strlit("Jan");
    reveal_strlit("Feb");
    reveal_strlit("Mar");
    reveal_strlit("Apr");
    reveal_strlit("May");
    reveal_strlit("Jun");
    reveal_strlit("Jul");
    reveal_strlit("Aug");
    reveal_strlit("Sep");
    reveal_strlit("Oct");
    reveal_strlit("Nov");
    reveal_strlit("Dec");
}

/// A date is plain text, so that a header can carry it.
pub proof fn lemma_date_is_plain(secs: int)
    ensures
        is_plain(http_date(secs)),
{
    reveal_strlit(", ");
    reveal_strlit(" ");
    reveal_strlit(":");
    reveal_strlit(" GMT");
    let d = date_of(secs / 86400);
    lemma_names_are_plain((secs / 86400 + 4) % 7);
    lemma_names_are_plain(d.month);
    lemma_two_is_plain(d.day);
    lemma_four_is_plain(d.year % 0x1_0000_0000);
    lemma_two_is_plain(secs % 86400 / 3600);
    lemma_two_is_plain(secs % 3600 / 60);
    lemma_two_is_plain(secs % 60);
    let a = weekday_name((secs / 86400 + 4) % 7) + ", "@;
    lemma_plain_concat(weekday_name((secs / 86400 + 4) % 7), ", "@);
    let b = a + two(d.day);
    lemma_plain_concat(a, two(d.day));
    let c = b + " "@;
    lemma_plain_concat(b, " "@);
    let e = c + month_name(d.month);
    lemma_plain_concat(c, month_name(d.month));
    let f = e + " "@;
    lemma_plain_concat(e, " "@);
    let g = f + four(d.year % 0x1_0000_0000);
    lemma_plain_concat(f, four(d.year % 0x1_0000_0000));
    let h = g + " "@;
    lemma_plain_concat(g, " "@);
    let i = h + two(secs % 86400 / 3600);
    lemma_plain_concat(h, two(secs % 86400 / 3600));
    let j = i + ":"@;
    lemma_plain_concat(i, ":"@);
    let k = j + two(secs % 3600 / 60);
    lemma_plain_concat(j, two(secs % 3600 / 60));
    let l = k + ":"@;
    lemma_plain_concat(k, ":"@);
    let m = l + two(secs % 60);
    lemma_plain_concat(l, two(secs % 60));
    lemma_plain_concat(m, " GMT"@);
}

} // verus!
