//! Laws on dates as HTTP writes them.

use crate::http_date::{
    Date, date_of, four, http_date, month_days, month_name, two, weekday_name, year_days,
};
use crate::text::decimal;
use vstd::prelude::*;
use vstd::string::*;

verus! {

/// The calendar: every fourth year has one day more, but for those that end a century
/// and not the fourth one; the months are counted from 0.
pub proof fn law_calendar(y: int)
    ensures
        y % 400 == 0 ==> year_days(y) == 366,
        y % 100 == 0 && y % 400 != 0 ==> year_days(y) == 365,
        y % 4 == 0 && y % 100 != 0 ==> year_days(y) == 366,
        y % 4 != 0 ==> year_days(y) == 365,
        month_days(y, 0) == 31,
        month_days(y, 1) == year_days(y) - 337,
        month_days(y, 2) == 31,
        month_days(y, 3) == 30,
        month_days(y, 4) == 31,
        month_days(y, 5) == 30,
        month_days(y, 6) == 31,
        month_days(y, 7) == 31,
        month_days(y, 8) == 30,
        month_days(y, 9) == 31,
        month_days(y, 10) == 30,
        month_days(y, 11) == 31,
{
    if y % 400 == 0 {
        assert(y % 100 == 0 && y % 4 == 0);
    }
    if y % 100 == 0 {
        assert(y % 4 == 0);
    }
}

/// Time starts on Thursday, the first of January 1970.
pub proof fn law_epoch()
    ensures
        date_of(0) == (Date { year: 1970, month: 1, day: 1 }),
        weekday_name((0int + 4) % 7) == "Thu"@,
{
    law_calendar(1970);
}

/// The names of days and months.
pub proof fn law_names()
    ensures
        weekday_name(0) == "Sun"@ && weekday_name(1) == "Mon"@ && weekday_name(2) == "Tue"@
            && weekday_name(3) == "Wed"@ && weekday_name(4) == "Thu"@ && weekday_name(5) == "Fri"@
            && weekday_name(6) == "Sat"@,
        month_name(1) == "Jan"@ && month_name(2) == "Feb"@ && month_name(3) == "Mar"@
            && month_name(4) == "Apr"@ && month_name(5) == "May"@ && month_name(6) == "Jun"@
            && month_name(7) == "Jul"@ && month_name(8) == "Aug"@ && month_name(9) == "Sep"@
            && month_name(10) == "Oct"@ && month_name(11) == "Nov"@ && month_name(12) == "Dec"@,
{
}

/// A date is written as the day of the week, the day, the month, the year and the time
/// of day, with two digits for days, hours, minutes and seconds and four for the year.
pub proof fn law_date_text(days: int, h: int, m: int, s: int)
    requires
        0 <= days,
        0 <= h < 24,
        0 <= m < 60,
        0 <= s < 60,
        date_of(days).year < 0x1_0000_0000,
        date_of(days).year >= 0,
    ensures
        ({
            let d = date_of(days);
            http_date(days * 86400 + h * 3600 + m * 60 + s) == weekday_name((days + 4) % 7) + seq![
                ',',
                ' ',
            ] + two(d.day) + seq![' '] + month_name(d.month) + seq![' '] + four(d.year) + seq![' ']
                + two(h) + seq![':'] + two(m) + seq![':'] + two(s) + seq![' ', 'G', 'M', 'T']
        }),
{
    reveal_strlit(", ");
    reveal_strlit(" ");
    reveal_strlit(":");
    reveal_strlit(" GMT");
    assert(", "@ =~= seq![',', ' ']);
    assert(" "@ =~= seq![' ']);
    assert(":"@ =~= seq![':']);
    assert(" GMT"@ =~= seq![' ', 'G', 'M', 'T']);
    let secs = days * 86400 + h * 3600 + m * 60 + s;
    assert(secs / 86400 == days);
    assert(secs % 86400 / 3600 == h);
    assert(secs % 3600 / 60 == m);
    assert(secs % 60 == s);
}

/// Numbers are filled up with zeros to two and to four digits.
pub proof fn law_filled_up(n: int)
    requires
        0 <= n,
    ensures
        n < 10 ==> two(n) == seq!['0'] + decimal(n as nat) && four(n) == seq!['0', '0', '0']
            + decimal(n as nat),
        10 <= n < 100 ==> two(n) == decimal(n as nat) && four(n) == seq!['0', '0'] + decimal(
            n as nat,
        ),
        100 <= n < 1000 ==> four(n) == seq!['0'] + decimal(n as nat),
        1000 <= n < 10000 ==> four(n) == decimal(n as nat),
{
    reveal_strlit("0");
    reveal_strlit("00");
    reveal_strlit("000");
    assert("0"@ =~= seq!['0']);
    assert("00"@ =~= seq!['0', '0']);
    assert("000"@ =~= seq!['0', '0', '0']);
}

} // verus!
