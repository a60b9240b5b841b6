//! Calendar arithmetic on days since 1970-01-01 (UTC, proleptic Gregorian).

use vstd::prelude::*;
use crate::text::{dec_pad, push_dec_pad, string_from};

verus! {

/// Leap years: divisible by 4 but not by 100, or divisible by 400.
pub open spec fn leap(y: int) -> bool {
    (y % 4 == 0 && y % 100 != 0) || y % 400 == 0
}

pub open spec fn year_len(y: int) -> int {
    if leap(y) {
        366
    } else {
        365
    }
}

/// The year that day `d` (counted from the start of year `y`) falls in, and
/// the day within that year.
pub open spec fn year_of(d: int, y: int) -> (int, int)
    decreases d,
{
    if d < 0 || d < year_len(y) {
        (y, d)
    } else {
        year_of(d - year_len(y), y + 1)
    }
}

/// Days of month `i` (0-based).
pub open spec fn month_len(is_leap: bool, i: int) -> int {
    if i == 1 {
        if is_leap {
            29
        } else {
            28
        }
    } else if i == 3 || i == 5 || i == 8 || i == 10 {
        30
    } else {
        31
    }
}

/// The month (1-based) that day `d` of a year falls in, counting from month
/// `i`, and the day within it.
pub open spec fn month_of(d: int, is_leap: bool, i: int) -> (int, int)
    decreases 12 - i,
{
    if i >= 12 || d < month_len(is_leap, i) {
        (i + 1, d)
    } else {
        month_of(d - month_len(is_leap, i), is_leap, i + 1)
    }
}

/// Year, month and day of a day number.
pub open spec fn ymd_of(days: int) -> (int, int, int) {
    let (y, d) = year_of(days, 1970);
    let (m, dd) = month_of(d, leap(y), 0);
    (y, m, dd + 1)
}

/// Whether `year` is a leap year.
pub fn is_leap(year: u64) -> (r: bool)
    ensures
        r == leap(year as int),
{
    (year % 4 == 0 && year % 100 != 0) || year % 400 == 0
}

/// The date `(year, month, day)` of a day counted from 1970-01-01.
pub fn days_to_ymd(days: u64) -> (r: (u64, u64, u64))
    ensures
        (r.0 as int, r.1 as int, r.2 as int) == ymd_of(days as int),
{
    let mut d = days;
    let mut year: u64 = 1970;
    loop
        invariant_except_break
            d <= days,
            1970 <= year,
            365 * (year - 1970) <= days - d,
            year_of(days as int, 1970) == year_of(d as int, year as int),
        ensures
            1970 <= year,
            year_of(days as int, 1970) == (year as int, d as int),
            d < year_len(year as int),
        decreases d,
    {
        let diy: u64 = if is_leap(year) {
            366
        } else {
            365
        };
        if d < diy {
            break;
        }
        d -= diy;
        year += 1;
    }
    let lp = is_leap(year);
    let mut month: u64 = 1;
    let mut i: u64 = 0;
    loop
        invariant_except_break
            i < 12,
            month == i + 1,
            d < 366,
            month_of(
                year_of(days as int, 1970).1,
                leap(year as int),
                0,
            ) == month_of(d as int, lp, i as int),
            lp == leap(year as int),
        ensures
            month_of(year_of(days as int, 1970).1, leap(year as int), 0) == (month as int, d as int),
            d < 366,
            month <= 13,
        decreases 12 - i,
    {
        let md: u64 = if i == 1 {
            if lp {
                29
            } else {
                28
            }
        } else if i == 3 || i == 5 || i == 8 || i == 10 {
            30
        } else {
            31
        };
        if d < md {
            break;
        }
        assert(md == month_len(lp, i as int));
        assert(month_of(d as int, lp, i as int) == month_of(d - md, lp, i + 1));
        d -= md;
        month += 1;
        i += 1;
        if i == 12 {
            break;
        }
    }
    (year, month, d + 1)
}

/// Days of month `m` (1-based) of year `y`.
pub open spec fn days_in_month(y: int, m: int) -> int {
    month_len(leap(y), m - 1)
}

/// A calendar date on or after 1970-01-01.
pub open spec fn valid_date(t: (int, int, int)) -> bool {
    &&& t.0 >= 1970
    &&& 1 <= t.1 <= 12
    &&& 1 <= t.2 <= days_in_month(t.0, t.1)
}

/// The date after `t`.
pub open spec fn next_date(t: (int, int, int)) -> (int, int, int) {
    if t.2 < days_in_month(t.0, t.1) {
        (t.0, t.1, t.2 + 1)
    } else if t.1 < 12 {
        (t.0, t.1 + 1, 1)
    } else {
        (t.0 + 1, 1, 1)
    }
}

/// Days of the months from `i` (0-based) to the end of the year.
pub open spec fn rest_len(is_leap: bool, i: int) -> int
    decreases 12 - i,
{
    if i >= 12 {
        0
    } else {
        month_len(is_leap, i) + rest_len(is_leap, i + 1)
    }
}

proof fn lemma_rest_len(is_leap: bool, i: int)
    requires
        0 <= i <= 12,
    ensures
        rest_len(is_leap, i) >= 0,
        i < 12 ==> rest_len(is_leap, i) >= 28,
        rest_len(is_leap, 0) == (if is_leap { 366int } else { 365int }),
    decreases 12 - i,
{
    if i < 12 {
        lemma_rest_len(is_leap, i + 1);
    }
    reveal_with_fuel(rest_len, 13);
}

proof fn lemma_year_of(d: int, y: int)
    requires
        d >= 0,
    ensures
        year_of(d, y).0 >= y,
        0 <= year_of(d, y).1 < year_len(year_of(d, y).0),
        year_of(d + 1, y) == (if year_of(d, y).1 + 1 < year_len(year_of(d, y).0) {
            (year_of(d, y).0, year_of(d, y).1 + 1)
        } else {
            (year_of(d, y).0 + 1, 0)
        }),
    decreases d,
{
    if d >= year_len(y) {
        lemma_year_of(d - year_len(y), y + 1);
        assert(year_of(d + 1, y) == year_of(d + 1 - year_len(y), y + 1));
    } else if d + 1 >= year_len(y) {
        assert(year_of(d + 1, y) == year_of(0, y + 1));
    }
}

proof fn lemma_month_of(d: int, is_leap: bool, i: int)
    requires
        0 <= i < 12,
        0 <= d < rest_len(is_leap, i),
    ensures
        i + 1 <= month_of(d, is_leap, i).0 <= 12,
        0 <= month_of(d, is_leap, i).1 < month_len(is_leap, month_of(d, is_leap, i).0 - 1),
        d == rest_len(is_leap, i) - rest_len(is_leap, month_of(d, is_leap, i).0 - 1) + month_of(
            d,
            is_leap,
            i,
        ).1,
        d + 1 < rest_len(is_leap, i) ==> month_of(d + 1, is_leap, i) == (if month_of(d, is_leap, i).1
            + 1 < month_len(is_leap, month_of(d, is_leap, i).0 - 1) {
            (month_of(d, is_leap, i).0, month_of(d, is_leap, i).1 + 1)
        } else {
            (month_of(d, is_leap, i).0 + 1, 0)
        }),
    decreases 12 - i,
{
    lemma_rest_len(is_leap, i + 1);
    if d >= month_len(is_leap, i) {
        lemma_month_of(d - month_len(is_leap, i), is_leap, i + 1);
    } else if d + 1 >= month_len(is_leap, i) && d + 1 < rest_len(is_leap, i) {
        assert(month_of(d + 1, is_leap, i) == month_of(0, is_leap, i + 1));
    }
}

/// Every day number names a calendar date on or after 1970-01-01, and the
/// next day number names the date after it: the day count runs through the
/// calendar with no gap and no repeat.
pub proof fn lemma_ymd_calendar(d: nat)
    ensures
        valid_date(ymd_of(d as int)),
        ymd_of(d + 1int) == next_date(ymd_of(d as int)),
{
    let (y, r) = year_of(d as int, 1970);
    lemma_year_of(d as int, 1970);
    lemma_rest_len(leap(y), 0);
    lemma_month_of(r, leap(y), 0);
    let (m, dd) = month_of(r, leap(y), 0);
    if r + 1 < year_len(y) {
        assert(year_of(d + 1int, 1970) == (y, r + 1));
        assert(rest_len(leap(y), m - 1) == month_len(leap(y), m - 1) + rest_len(leap(y), m));
        if dd + 1 >= month_len(leap(y), m - 1) {
            assert(rest_len(leap(y), m) > 0);
            assert(m < 12);
        }
        assert(ymd_of(d + 1int) == (y, month_of(r + 1, leap(y), 0).0, month_of(r + 1, leap(y), 0).1 + 1));
    } else {
        assert(year_of(d + 1int, 1970) == (y + 1, 0int));
        assert(rest_len(leap(y), m - 1) == month_len(leap(y), m - 1) + rest_len(leap(y), m));
        lemma_rest_len(leap(y), m);
        assert(rest_len(leap(y), m) == 0);
        assert(m == 12);
        lemma_rest_len(leap(y + 1), 0);
        assert(month_of(0, leap(y + 1), 0) == (1int, 0int));
    }
}

/// `yyyy-mm-dd` of a day number.
pub open spec fn ymd_text(days: int) -> Seq<char> {
    let (y, m, d) = ymd_of(days);
    dec_pad(y as nat, 4) + seq!['-'] + dec_pad(m as nat, 2) + seq!['-'] + dec_pad(d as nat, 2)
}

/// A day number as `yyyy-mm-dd` (`{:04}-{:02}-{:02}`).
pub fn day_to_ymd_string(day: u64) -> (r: String)
    ensures
        r@ == ymd_text(day as int),
{
    let (y, m, d) = days_to_ymd(day);
    let mut v: Vec<char> = Vec::new();
    push_dec_pad(&mut v, y, 4);
    v.push('-');
    push_dec_pad(&mut v, m, 2);
    v.push('-');
    push_dec_pad(&mut v, d, 2);
    assert(v@ =~= ymd_text(day as int));
    string_from(v.as_slice())
}

/// `yyyymmddhhmmss` of a moment given in seconds since 1970-01-01 (UTC).
pub open spec fn timestamp_text(secs: int) -> Seq<char> {
    let (y, m, d) = ymd_of(secs / 86400);
    let s = secs % 86400;
    dec_pad(y as nat, 4) + dec_pad(m as nat, 2) + dec_pad(d as nat, 2) + dec_pad((s / 3600) as nat, 2)
        + dec_pad(((s % 3600) / 60) as nat, 2) + dec_pad((s % 60) as nat, 2)
}

/// The 14-digit timestamp of a moment in seconds since 1970-01-01 (UTC).
pub fn timestamp14_of(secs: u64) -> (r: String)
    ensures
        r@ == timestamp_text(secs as int),
{
    let (y, m, d) = days_to_ymd(secs / 86400);
    let day_secs = secs % 86400;
    let mut v: Vec<char> = Vec::new();
    push_dec_pad(&mut v, y, 4);
    push_dec_pad(&mut v, m, 2);
    push_dec_pad(&mut v, d, 2);
    push_dec_pad(&mut v, day_secs / 3600, 2);
    push_dec_pad(&mut v, (day_secs % 3600) / 60, 2);
    push_dec_pad(&mut v, day_secs % 60, 2);
    assert(v@ =~= timestamp_text(secs as int));
    string_from(v.as_slice())
}

/// `SystemTime::now().duration_since(UNIX_EPOCH)` in whole seconds (0 when
/// the clock is before 1970). The clock gives any value: nothing is claimed.
#[verifier::external_body]
pub(crate) fn unix_now_secs() -> (r: u64) {
    match std::time::SystemTime::now().duration_since(std::time::UNIX_EPOCH) {
        Ok(d) => d.as_secs(),
        Err(_) => 0,
    }
}

/// The current moment as `yyyymmddhhmmss` (UTC).
pub fn now_timestamp14() -> (r: String)
    ensures
        exists|secs: u64| r@ == timestamp_text(secs as int),
{
    let secs = unix_now_secs();
    timestamp14_of(secs)
}

} // verus!
