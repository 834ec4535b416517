//! Calendar dates, for conflict filenames.
//!
//! UTC rather than local time, so the same conflict produces the same filename
//! on every device.

use vstd::prelude::*;

use crate::text;
use crate::text::{padded_of, zero_padded_of};

verus! {

/// Whether `y` is a leap year of the Gregorian calendar.
pub open spec fn leap(y: int) -> bool {
    y % 4 == 0 && (y % 100 != 0 || y % 400 == 0)
}

/// How many leap years lie between year 0 and the start of year `y`.
pub open spec fn leaps_before(y: int) -> int {
    (y - 1) / 4 - (y - 1) / 100 + (y - 1) / 400
}

/// How many days month `m` of year `y` has.
pub open spec fn days_in_month(y: int, m: int) -> int {
    if m == 2 {
        if leap(y) {
            29
        } else {
            28
        }
    } else if m == 4 || m == 6 || m == 9 || m == 11 {
        30
    } else {
        31
    }
}

/// How many days of year `y` lie before month `m`.
pub open spec fn days_before_month(y: int, m: int) -> int
    decreases m,
{
    if m <= 1 {
        0
    } else {
        days_before_month(y, m - 1) + days_in_month(y, m - 1)
    }
}

/// A date that the calendar has.
pub open spec fn is_date(y: int, m: int, d: int) -> bool {
    1 <= m <= 12 && 1 <= d <= days_in_month(y, m)
}

/// Days from 1 January 1970 to the given date.
pub open spec fn day_number(y: int, m: int, d: int) -> int {
    365 * (y - 1970) + leaps_before(y) - leaps_before(1970) + days_before_month(y, m) + d - 1
}

/// The calendar date of the day `days` days after 1 January 1970.
pub open spec fn date_of(days: int) -> (int, int, int) {
    choose|t: (int, int, int)| is_date(t.0, t.1, t.2) && #[trigger] day_number(t.0, t.1, t.2) == days
}

/// `YYYY-MM-DD-HHMMSS` in UTC.
pub open spec fn utc(unix_seconds: int) -> Seq<char> {
    let date = date_of(unix_seconds / 86_400);
    let secs = unix_seconds % 86_400;
    text::padded(date.0, 4) + "-"@ + text::padded(date.1, 2) + "-"@ + text::padded(date.2, 2)
        + "-"@ + text::padded(secs / 3600, 2) + text::padded((secs % 3600) / 60, 2)
        + text::padded(secs % 60, 2)
}

/// A time holds no dots and no slashes.
pub proof fn utc_is_plain(unix_seconds: int)
    ensures
        forall|i: int|
            0 <= i < utc(unix_seconds).len() ==> utc(unix_seconds)[i] != '.' && utc(
                unix_seconds,
            )[i] != '/',
{
    let date = date_of(unix_seconds / 86_400);
    let secs = unix_seconds % 86_400;
    text::padded_is_plain(date.0, 4);
    text::padded_is_plain(date.1, 2);
    text::padded_is_plain(date.2, 2);
    text::padded_is_plain(secs / 3600, 2);
    text::padded_is_plain((secs % 3600) / 60, 2);
    text::padded_is_plain(secs % 60, 2);
    reveal_strlit("-");
}

proof fn months_table(y: int)
    ensures
        days_before_month(y, 1) == 0,
        days_before_month(y, 2) == 31,
        days_before_month(y, 3) == if leap(y) { 60int } else { 59 },
        days_before_month(y, 4) == days_before_month(y, 3) + 31,
        days_before_month(y, 5) == days_before_month(y, 3) + 61,
        days_before_month(y, 6) == days_before_month(y, 3) + 92,
        days_before_month(y, 7) == days_before_month(y, 3) + 122,
        days_before_month(y, 8) == days_before_month(y, 3) + 153,
        days_before_month(y, 9) == days_before_month(y, 3) + 184,
        days_before_month(y, 10) == days_before_month(y, 3) + 214,
        days_before_month(y, 11) == days_before_month(y, 3) + 245,
        days_before_month(y, 12) == days_before_month(y, 3) + 275,
{
    reveal_with_fuel(days_before_month, 13);
}

/// Days since the unix epoch to a calendar date.
///
/// The year is shifted to start in March, so that the leap day falls at the
/// end and needs no special case.
pub fn civil_from_days(days: i64) -> (date: (i64, u32, u32))
    requires
        days <= i64::MAX - 719_468,
    ensures
        is_date(date.0 as int, date.1 as int, date.2 as int),
        day_number(date.0 as int, date.1 as int, date.2 as int) == days,
        (date.0 as int, date.1 as int, date.2 as int) == date_of(days as int),
        -30_000_000_000_000_000 < date.0 < 30_000_000_000_000_000,
{
    let z: i64 = days + 719_468;
    let era: i64 = z.checked_div_euclid(146_097).unwrap();
    let doe: i64 = z.checked_rem_euclid(146_097).unwrap();
    let (yoe, doy) = year_of_era(doe);
    let y: i64 = yoe + era * 400;
    let (mp, d) = month_of_year(doy);
    proof {
        march_year(era as int, yoe as int, doy as int, mp as int);
        february(era as int, yoe as int);
    }
    let date: (i64, u32, u32) = if mp < 10 {
        (y, (mp + 3) as u32, d)
    } else {
        (y + 1, (mp - 9) as u32, d)
    };
    proof {
        law_a_day_has_one_date(
            (date.0 as int, date.1 as int, date.2 as int),
            date_of(days as int),
        );
    }
    date
}

/// `YYYY-MM-DD-HHMMSS` in UTC.
pub fn format_utc(unix_seconds: i64) -> (text: String)
    ensures
        text@ == utc(unix_seconds as int),
{
    let days: i64 = unix_seconds.checked_div_euclid(86_400).unwrap();
    let secs: i64 = unix_seconds.checked_rem_euclid(86_400).unwrap();
    let (y, m, d) = civil_from_days(days);
    padded_of(y, 4).concat("-").concat(&zero_padded_of(m as u64, 2)).concat("-").concat(
        &zero_padded_of(d as u64, 2),
    ).concat("-").concat(&padded_of(secs / 3600, 2)).concat(&padded_of((secs % 3600) / 60, 2)).concat(
        &padded_of(secs % 60, 2),
    )
}

/// The first day of a year.
spec fn new_year(y: int) -> int {
    365 * (y - 1970) + leaps_before(y) - leaps_before(1970)
}

proof fn new_years_in_order(a: int, b: int)
    requires
        a < b,
    ensures
        new_year(a) + 365 + (if leap(a) {
            1int
        } else {
            0
        }) <= new_year(b),
    decreases b - a,
{
    assert(leaps_before(a + 1) == leaps_before(a) + if leap(a) { 1int } else { 0 });
    if a + 1 < b {
        new_years_in_order(a + 1, b);
    }
}

proof fn months_in_order(y: int, a: int, b: int)
    requires
        1 <= a < b,
    ensures
        days_before_month(y, a) + days_in_month(y, a) <= days_before_month(y, b),
    decreases b - a,
{
    if a + 1 < b {
        months_in_order(y, a, b - 1);
    }
}

/// Later dates have greater day numbers, so that no day has two dates.
pub proof fn law_a_day_has_one_date(a: (int, int, int), b: (int, int, int))
    requires
        is_date(a.0, a.1, a.2),
        is_date(b.0, b.1, b.2),
        day_number(a.0, a.1, a.2) == day_number(b.0, b.1, b.2),
    ensures
        a == b,
{
    months_table(a.0);
    months_table(b.0);
    if a.0 < b.0 {
        new_years_in_order(a.0, b.0);
    } else if b.0 < a.0 {
        new_years_in_order(b.0, a.0);
    } else if a.1 < b.1 {
        months_in_order(a.0, a.1, b.1);
    } else if b.1 < a.1 {
        months_in_order(a.0, b.1, a.1);
    }
}

/// The year within its 400 years, counted from March, and the day within that
/// year.
fn year_of_era(doe: i64) -> (found: (i64, i64))
    requires
        0 <= doe < 146_097,
    ensures
        0 <= found.0 < 400,
        0 <= found.1 <= 365,
        found.1 == 365 ==> (found.0 + 1) % 4 == 0 && ((found.0 + 1) % 100 != 0 || found.0 == 399),
        doe == 365 * found.0 + found.0 as int / 4 - found.0 as int / 100 + found.1,
{
    let yoe: i64 = (doe - doe / 1460 + doe / 36_524 - doe / 146_096) / 365;
    let doy: i64 = doe - (365 * yoe + yoe / 4 - yoe / 100);
    (yoe, doy)
}

/// The month counted from March, and the day of the month.
fn month_of_year(doy: i64) -> (found: (i64, u32))
    requires
        0 <= doy <= 365,
    ensures
        0 <= found.0 <= 11,
        found.0 == (5 * doy + 2) / 153,
        found.1 == doy - (153 * found.0 + 2) / 5 + 1,
        1 <= found.1,
        found.0 < 10 ==> found.1 <= days_in_month(1970, found.0 + 3),
        found.0 == 10 ==> found.1 <= 31,
        found.0 == 11 ==> found.1 <= 29,
        found.0 == 11 && found.1 == 29 ==> doy == 365,
{
    let mp: i64 = (5 * doy + 2) / 153;
    (mp, (doy - (153 * mp + 2) / 5 + 1) as u32)
}

/// The February that ends a year counted from March.
proof fn february(era: int, yoe: int)
    requires
        0 <= yoe < 400,
    ensures
        ({
            let y = yoe + era * 400 + 1;
            (yoe + 1) % 4 == 0 && ((yoe + 1) % 100 != 0 || yoe == 399) <==> leap(y)
        }),
{
}

/// The day that lies `doy` days after 1 March of the year `yoe` years into the
/// `era`-th 400 years is the `d`-th of month `m`.
proof fn march_year(era: int, yoe: int, doy: int, mp: int)
    requires
        0 <= yoe < 400,
        0 <= doy <= 365,
        mp == (5 * doy + 2) / 153,
    ensures
        ({
            let y = yoe + era * 400;
            let d = doy - (153 * mp + 2) / 5 + 1;
            let doe = 365 * yoe + yoe / 4 - yoe / 100 + doy;
            &&& mp < 10 ==> day_number(y, mp + 3, d) == era * 146_097 + doe - 719_468
            &&& mp >= 10 ==> day_number(y + 1, mp - 9, d) == era * 146_097 + doe - 719_468
        }),
{
    let y = yoe + era * 400;
    assert(leaps_before(y + 1) == yoe / 4 - yoe / 100 + 97 * era);
    assert(leaps_before(y + 1) == leaps_before(y) + if leap(y) { 1int } else { 0 });
    assert(leaps_before(1970) == 477);
    months_table(y);
    months_table(y + 1);
}

/// Days are counted from the first of January 1970, and each date is one day after
/// the one before it: within a month, from one month to the next, and from one year
/// to the next.
pub proof fn law_dates_follow_each_other(y: int, m: int, d: int)
    requires
        is_date(y, m, d),
    ensures
        day_number(1970, 1, 1) == 0,
        d < days_in_month(y, m) ==> day_number(y, m, d + 1) == day_number(y, m, d) + 1,
        d == days_in_month(y, m) && m < 12 ==> day_number(y, m + 1, 1) == day_number(y, m, d) + 1,
        d == days_in_month(y, m) && m == 12 ==> day_number(y + 1, 1, 1) == day_number(y, m, d) + 1,
{
    assert(days_before_month(1970, 1) == 0);
    if m < 12 {
        assert(days_before_month(y, m + 1) == days_before_month(y, m) + days_in_month(y, m));
    } else {
        one_year_more(y);
        days_of_a_year(y);
        assert(days_before_month(y + 1, 1) == 0);
    }
}

proof fn one_year_more(y: int)
    ensures
        leaps_before(y + 1) == leaps_before(y) + if leap(y) {
            1int
        } else {
            0
        },
{
}

proof fn days_of_a_year(y: int)
    ensures
        days_before_month(y, 12) + 31 == if leap(y) {
            366int
        } else {
            365
        },
{
    months_table(y);
}

proof fn four_centuries_more(y: int)
    ensures
        leaps_before(y + 400) == leaps_before(y) + 97,
        leap(y + 400) == leap(y),
{
    let x = y - 1;
    assert((x + 400) / 4 == x / 4 + 100);
    assert((x + 400) / 100 == x / 100 + 4);
    assert((x + 400) / 400 == x / 400 + 1);
}

proof fn same_months(y: int, z: int, m: int)
    requires
        leap(y) == leap(z),
    ensures
        days_before_month(y, m) == days_before_month(z, m),
    decreases m,
{
    if m > 1 {
        same_months(y, z, m - 1);
    }
}

/// The calendar repeats itself after four hundred years, and has exactly one leap
/// year in four, but for three in four hundred.
pub proof fn law_the_calendar_repeats_after_four_centuries(y: int, m: int, d: int)
    requires
        1 <= m <= 12,
    ensures
        leap(y + 400) == leap(y),
        day_number(y + 400, m, d) == day_number(y, m, d) + 146_097,
        leap(y) ==> y % 4 == 0,
        y % 4 == 0 && y % 100 != 0 ==> leap(y),
        leap(400 * y),
        !leap(400 * y + 100) && !leap(400 * y + 200) && !leap(400 * y + 300),
{
    four_centuries_more(y);
    same_months(y, y + 400, m);
}

/// A month has from twenty-eight to thirty-one days, and February a day more in a
/// leap year.
pub proof fn law_only_february_depends_on_the_year(y: int, z: int, m: int)
    requires
        1 <= m <= 12,
    ensures
        m != 2 ==> days_in_month(y, m) == days_in_month(z, m) && 30 <= days_in_month(y, m) <= 31,
        m == 2 && leap(y) ==> days_in_month(y, m) == 29,
        m == 2 && !leap(y) ==> days_in_month(y, m) == 28,
        days_before_month(y, 12) + 31 == if leap(y) {
            366int
        } else {
            365
        },
{
    months_table(y);
}

/// A moment is written as its date and its time of day, each at a fixed place, down
/// to the second, and can be told from what is written: the days since 1970 that the
/// date counts, and the hours, minutes and seconds of the day, make it up again.
pub proof fn law_a_moment_can_be_told_from_what_is_written(t: int, y: int, m: int, d: int)
    requires
        is_date(y, m, d),
        0 <= y <= 9999,
        day_number(y, m, d) == t / 86_400,
    ensures
        ({
            let s = utc(t);
            &&& s.len() == 17
            &&& text::spelled(s.subrange(0, 4)) == y
            &&& s[4] == '-'
            &&& text::spelled(s.subrange(5, 7)) == m
            &&& s[7] == '-'
            &&& text::spelled(s.subrange(8, 10)) == d
            &&& s[10] == '-'
            &&& day_number(y, m, d) * 86_400 + text::spelled(s.subrange(11, 13)) * 3_600
                + text::spelled(s.subrange(13, 15)) * 60 + text::spelled(s.subrange(15, 17)) == t
            &&& text::spelled(s.subrange(13, 15)) < 60
            &&& text::spelled(s.subrange(15, 17)) < 60
        }),
{
    let days = t / 86_400;
    let secs = t % 86_400;
    let date = date_of(days);
    assert(is_date(y, m, d) && day_number(y, m, d) == days);
    let whole = (y, m, d);
    assert(is_date(whole.0, whole.1, whole.2) && day_number(whole.0, whole.1, whole.2) == days);
    law_a_day_has_one_date(date, whole);
    let (hour, minute, second) = (secs / 3600, (secs % 3600) / 60, secs % 60);
    fills_its_width(y as nat, 4);
    fills_its_width(m as nat, 2);
    fills_its_width(d as nat, 2);
    fills_its_width(hour as nat, 2);
    fills_its_width(minute as nat, 2);
    fills_its_width(second as nat, 2);
    reveal_strlit("-");
    let s = utc(t);
    assert(s.subrange(0, 4) =~= text::padded(y, 4));
    assert(s.subrange(5, 7) =~= text::padded(m, 2));
    assert(s.subrange(8, 10) =~= text::padded(d, 2));
    assert(s.subrange(11, 13) =~= text::padded(hour, 2));
    assert(s.subrange(13, 15) =~= text::padded(minute, 2));
    assert(s.subrange(15, 17) =~= text::padded(second, 2));
}

proof fn fills_its_width(n: nat, width: nat)
    requires
        width == 2 && n < 100 || width == 4 && n < 10_000,
    ensures
        text::padded(n as int, width).len() == width,
        text::spelled(text::padded(n as int, width)) == n,
{
    text::law_padding_changes_no_number(n, width);
    assert(text::decimal(n).len() <= width) by {
        reveal_with_fuel(text::decimal, 4);
    }
}

} // verus!
