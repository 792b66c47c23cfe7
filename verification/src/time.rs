//! Minimal Unix-seconds to UTC formatting, so Lore needs no date dependency.
//!
//! Dates are proleptic Gregorian. [`days_from_civil`] counts the days from
//! 1970-01-01 to a date; [`civil_from_days`] computes, in closed form, the
//! one valid date whose count is a given day number.

use vstd::prelude::*;

use crate::text::{append_str, dec, push_dec_padded, zero_pad};

verus! {

pub open spec fn is_leap(y: int) -> bool {
    (y % 4 == 0 && y % 100 != 0) || y % 400 == 0
}

pub open spec fn year_len(y: int) -> int {
    if is_leap(y) {
        366
    } else {
        365
    }
}

pub open spec fn month_len(y: int, m: int) -> int {
    if m == 2 {
        if is_leap(y) {
            29
        } else {
            28
        }
    } else if m == 4 || m == 6 || m == 9 || m == 11 {
        30
    } else {
        31
    }
}

/// The number of leap years among years `1..=n`.
pub open spec fn leaps_through(n: int) -> int {
    n / 4 - n / 100 + n / 400
}

/// Days from 1970-01-01 to the first day of year `y`: 365 for each year
/// between, plus one for each leap year between.
pub open spec fn days_before_year(y: int) -> int {
    365 * (y - 1970) + leaps_through(y - 1) - leaps_through(1969)
}

/// Days from the first of January to the first day of month `m` of year `y`.
pub open spec fn days_before_month(y: int, m: int) -> int
    decreases m,
{
    if m <= 1 {
        0
    } else {
        days_before_month(y, m - 1) + month_len(y, m - 1)
    }
}

/// Days from 1970-01-01 to `y-m-d`.
pub open spec fn days_from_civil(y: int, m: int, d: int) -> int {
    days_before_year(y) + days_before_month(y, m) + d - 1
}

/// `y-m-d` is a date of the proleptic Gregorian calendar.
pub open spec fn valid_date(y: int, m: int, d: int) -> bool {
    1 <= m <= 12 && 1 <= d <= month_len(y, m)
}

/// Each year adds its length to the count.
pub proof fn lemma_year_step(y: int)
    ensures
        days_before_year(y + 1) == days_before_year(y) + year_len(y),
{
    assert(leaps_through(y) - leaps_through(y - 1) == (if is_leap(y) {
        1int
    } else {
        0int
    }));
}

proof fn lemma_months_fill_year(y: int)
    ensures
        days_before_month(y, 13) == year_len(y),
        forall|m: int| 1 <= m <= 12 ==> #[trigger] days_before_month(y, m) + month_len(y, m)
            == days_before_month(y, m + 1),
{
    reveal_with_fuel(days_before_month, 13);
}

/// Later years start later.
proof fn lemma_years_increase(a: int, b: int)
    requires
        a < b,
    ensures
        days_before_year(a) + year_len(a) <= days_before_year(b),
    decreases b - a,
{
    lemma_year_step(a);
    if b > a + 1 {
        lemma_years_increase(a + 1, b);
        lemma_year_step(a + 1);
    }
}

/// Later months start later.
proof fn lemma_months_increase(y: int, a: int, b: int)
    requires
        1 <= a < b <= 13,
    ensures
        days_before_month(y, a) + month_len(y, a) <= days_before_month(y, b),
    decreases b - a,
{
    lemma_months_fill_year(y);
    if b > a + 1 {
        lemma_months_increase(y, a + 1, b);
    }
}

/// A valid date falls inside its year and its month.
proof fn lemma_date_bounds(y: int, m: int, d: int)
    requires
        valid_date(y, m, d),
    ensures
        days_before_year(y) <= days_from_civil(y, m, d) < days_before_year(y) + year_len(y),
        days_before_month(y, m) <= days_from_civil(y, m, d) - days_before_year(y) < days_before_month(
            y,
            m,
        ) + month_len(y, m),
{
    lemma_months_fill_year(y);
    if m < 12 {
        lemma_months_increase(y, m, 13);
    }
    assert(days_before_month(y, 1) == 0);
    if m > 1 {
        lemma_months_increase(y, 1, m);
    }
}

/// Distinct valid dates have distinct day numbers.
pub proof fn lemma_days_from_civil_injective(y1: int, m1: int, d1: int, y2: int, m2: int, d2: int)
    requires
        valid_date(y1, m1, d1),
        valid_date(y2, m2, d2),
        days_from_civil(y1, m1, d1) == days_from_civil(y2, m2, d2),
    ensures
        y1 == y2 && m1 == m2 && d1 == d2,
{
    lemma_date_bounds(y1, m1, d1);
    lemma_date_bounds(y2, m2, d2);
    if y1 < y2 {
        lemma_years_increase(y1, y2);
    } else if y2 < y1 {
        lemma_years_increase(y2, y1);
    }
    if m1 < m2 {
        lemma_months_increase(y1, m1, m2);
    } else if m2 < m1 {
        lemma_months_increase(y1, m2, m1);
    }
}

/// Days from 0000-03-01 to the first of March of year `y`: years run from
/// March to February, so each leap day ends the year before it is counted.
pub open spec fn march_days(y: int) -> int {
    365 * y + y / 4 - y / 100 + y / 400
}

/// The year of an era that holds its day `doe`.
pub open spec fn year_of_era(doe: int) -> int {
    (doe - doe / 1460 + doe / 36524 - doe / 146096) / 365
}

/// The year formula finds the year of the era that holds each of its days.
proof fn lemma_year_of_era(doe: int)
    requires
        0 <= doe < 146097,
    ensures
        0 <= year_of_era(doe) < 400,
        march_days(year_of_era(doe)) <= doe < march_days(year_of_era(doe) + 1),
{
    if doe == 146096 {
        assert(year_of_era(doe) == 399);
    } else {
        let c = doe / 36524;
        let r = doe % 36524;
        let q = r / 1461;
        let s = r % 1461;
        assert(doe == 36524 * c + 1461 * q + s);
        assert(0 <= c <= 3);
        assert(0 <= q <= 24);
        assert(q == 24 ==> s <= 1459);
        assert(doe / 36524 == c);
        assert(doe / 146096 == 0);
        let delta: int = if 24 * c + q + s >= 1460 { 1 } else { 0 };
        assert(doe / 1460 == 25 * c + q + delta);
        let k = if s == 1460 { 3 } else { s / 365 };
        assert(year_of_era(doe) == 100 * c + 4 * q + k);
        let t = 100 * c + 4 * q + k;
        assert(march_days(t) == 36524 * c + 1461 * q + 365 * k);
        if k < 3 {
            assert(march_days(t + 1) == 36524 * c + 1461 * q + 365 * (k + 1));
        } else if q < 24 {
            assert(march_days(t + 1) == 36524 * c + 1461 * (q + 1));
        } else {
            assert(march_days(t + 1) >= 36524 * (c + 1));
        }
    }
}

/// Eras of 400 years hold 146097 days each.
proof fn lemma_march_era(e: int, t: int)
    requires
        0 <= t <= 400,
    ensures
        march_days(400 * e + t) == 146097 * e + march_days(t),
{
    assert((400 * e + t) / 4 == 100 * e + t / 4);
    assert((400 * e + t) / 100 == 4 * e + t / 100);
    assert((400 * e + t) / 400 == e + t / 400);
}

/// A March-to-February year is one day longer when the February it ends
/// with is a leap February.
proof fn lemma_march_step(y: int)
    ensures
        march_days(y + 1) == march_days(y) + 365 + (if is_leap(y + 1) { 1int } else { 0int }),
{
    assert((y + 1) / 4 == y / 4 + (if (y + 1) % 4 == 0 { 1int } else { 0int }));
    assert((y + 1) / 100 == y / 100 + (if (y + 1) % 100 == 0 { 1int } else { 0int }));
    assert((y + 1) / 400 == y / 400 + (if (y + 1) % 400 == 0 { 1int } else { 0int }));
    assert((y + 1) % 100 == 0 ==> (y + 1) % 4 == 0);
    assert((y + 1) % 400 == 0 ==> (y + 1) % 100 == 0);
}

/// The first of January of year `y` falls 306 days into the March year
/// before it; 1970-01-01 is day 719468 from 0000-03-01.
proof fn lemma_year_start(y: int)
    ensures
        days_before_year(y) == march_days(y - 1) + 306 - 719468,
{
    assert(leaps_through(1969) == 477);
}

/// Days from the first of March to the first day of the `mp`th month after
/// it.
pub open spec fn month_start(mp: int) -> int {
    (153 * mp + 2) / 5
}

/// The month formula finds the month of a March year that holds each of
/// its days.
proof fn lemma_month_of_year(doy: int)
    requires
        0 <= doy <= 365,
    ensures
        0 <= (5 * doy + 2) / 153 <= 11,
        month_start((5 * doy + 2) / 153) <= doy < month_start((5 * doy + 2) / 153 + 1),
{
}

/// Months from March on start where the March-based table says.
proof fn lemma_month_table(y: int)
    ensures
        forall|m: int|
            3 <= m <= 12 ==> #[trigger] days_before_month(y, m) == 59 + (if is_leap(y) {
                1int
            } else {
                0int
            }) + month_start(m - 3),
        forall|m: int| 3 <= m <= 12 ==> #[trigger] month_len(y, m) == month_start(m - 2) - month_start(m - 3),
        days_before_month(y, 1) == 0,
        days_before_month(y, 2) == 31,
        month_start(10) == 306,
        month_start(11) == 337,
        month_start(12) == 367,
{
    reveal_with_fuel(days_before_month, 13);
    assert(month_start(0) == 0);
    assert(month_start(1) == 31);
    assert(month_start(2) == 61);
    assert(month_start(3) == 92);
    assert(month_start(4) == 122);
    assert(month_start(5) == 153);
    assert(month_start(6) == 184);
    assert(month_start(7) == 214);
    assert(month_start(8) == 245);
    assert(month_start(9) == 275);
    assert(month_start(10) == 306);
    assert(month_start(11) == 337);
    assert(month_start(12) == 367);
}

/// The date `days` days after 1970-01-01.
pub open spec fn civil(days: int) -> (int, int, int) {
    choose|ymd: (int, int, int)|
        valid_date(ymd.0, ymd.1, ymd.2) && days_from_civil(ymd.0, ymd.1, ymd.2) == days
}

/// The `(year, month, day)` that is `z` days after 1970-01-01 (before it
/// when `z` is negative), by Howard Hinnant's closed-form computation over
/// 400-year eras of March-to-February years.
pub fn civil_from_days(z: i64) -> (r: (i64, u32, u32))
    requires
        z <= i64::MAX - 719468,
    ensures
        valid_date(r.0 as int, r.1 as int, r.2 as int),
        days_from_civil(r.0 as int, r.1 as int, r.2 as int) == z,
        (r.0 as int, r.1 as int, r.2 as int) == civil(z as int),
{
    let z = z + 719468;
    let era = z.checked_div_euclid(146097).unwrap();
    let doe = z.checked_rem_euclid(146097).unwrap();
    proof {
        lemma_year_of_era(doe as int);
        assert(doe / 146096 <= 1);
        assert(doe / 146096 == 1 ==> doe == 146096);
    }
    let yoe = (doe - doe / 1460 + doe / 36524 - doe / 146096) / 365;
    let year = yoe + era * 400;
    let doy = doe - (365 * yoe + yoe / 4 - yoe / 100);
    proof {
        let t = yoe as int;
        assert(t == year_of_era(doe as int));
        lemma_march_era(era as int, t);
        lemma_march_era(era as int, t + 1);
        lemma_march_step(year as int);
        assert(march_days(t) == 365 * t + t / 4 - t / 100);
        assert(doy as int == z - march_days(year as int));
        assert(doy <= 365);
        lemma_month_of_year(doy as int);
    }
    let mp = (5 * doy + 2) / 153;
    let day = (doy - (153 * mp + 2) / 5 + 1) as u32;
    let month = (if mp < 10 {
        mp + 3
    } else {
        mp - 9
    }) as u32;
    let y = if month <= 2 {
        year + 1
    } else {
        year
    };
    proof {
        let yi = year as int;
        lemma_month_table(yi);
        lemma_month_table(yi + 1);
        if mp < 10 {
            lemma_year_start(yi);
            lemma_march_step(yi - 1);
            assert(days_before_month(yi, month as int) == 59 + (if is_leap(yi) {
                1int
            } else {
                0int
            }) + month_start(mp as int));
            assert(month_len(yi, month as int) == month_start(mp as int + 1) - month_start(mp as int));
        } else {
            lemma_year_start(yi + 1);
        }
        assert(valid_date(y as int, month as int, day as int));
        assert(days_from_civil(y as int, month as int, day as int) == z - 719468);
        let w = civil(z - 719468);
        assert(exists|ymd: (int, int, int)|
            valid_date(ymd.0, ymd.1, ymd.2) && days_from_civil(ymd.0, ymd.1, ymd.2) == z - 719468) by {
            let ymd = (y as int, month as int, day as int);
            assert(valid_date(ymd.0, ymd.1, ymd.2) && days_from_civil(ymd.0, ymd.1, ymd.2) == z - 719468);
        }
        lemma_days_from_civil_injective(w.0, w.1, w.2, y as int, month as int, day as int);
    }
    (y, month, day)
}

/// A date on or after 1970-01-01 is in 1970 or later.
proof fn lemma_epoch_year(y: int, m: int, d: int)
    requires
        valid_date(y, m, d),
        days_from_civil(y, m, d) >= 0,
    ensures
        y >= 1970,
{
    if y < 1970 {
        lemma_date_bounds(y, m, d);
        lemma_years_increase(y, 1970);
        assert(days_before_year(1970) == 0);
    }
}

/// `YYYY-MM-DD HH:MM:SS UTC` for the given fields.
pub open spec fn timestamp_text(y: int, mo: int, d: int, h: int, mi: int, s: int) -> Seq<char> {
    zero_pad(dec(y as nat), 4) + "-"@ + zero_pad(dec(mo as nat), 2) + "-"@ + zero_pad(
        dec(d as nat),
        2,
    ) + " "@ + zero_pad(dec(h as nat), 2) + ":"@ + zero_pad(dec(mi as nat), 2) + ":"@ + zero_pad(
        dec(s as nat),
        2,
    ) + " UTC"@
}

/// The UTC text of Unix second `secs`.
pub open spec fn unix_text(secs: nat) -> Seq<char> {
    let ymd = civil((secs / 86400) as int);
    let rem = secs % 86400;
    timestamp_text(ymd.0, ymd.1, ymd.2, (rem / 3600) as int, ((rem % 3600) / 60) as int, (rem % 60) as int)
}

/// Format Unix seconds as `YYYY-MM-DD HH:MM:SS UTC`.
pub fn format_unix(secs: u64) -> (s: String)
    ensures
        s@ == unix_text(secs as nat),
{
    let days = (secs / 86400) as i64;
    let rem = secs % 86400;
    let (y, m, d) = civil_from_days(days);
    proof {
        lemma_epoch_year(y as int, m as int, d as int);
    }
    let mut s = String::new();
    push_dec_padded(&mut s, y as u64, 4);
    append_str(&mut s, "-");
    push_dec_padded(&mut s, m as u64, 2);
    append_str(&mut s, "-");
    push_dec_padded(&mut s, d as u64, 2);
    append_str(&mut s, " ");
    push_dec_padded(&mut s, rem / 3600, 2);
    append_str(&mut s, ":");
    push_dec_padded(&mut s, (rem % 3600) / 60, 2);
    append_str(&mut s, ":");
    push_dec_padded(&mut s, rem % 60, 2);
    append_str(&mut s, " UTC");
    s
}

/// The UTC text of Unix nanosecond `ns`, to the second.
pub open spec fn unix_ns_text(ns: nat) -> Seq<char> {
    unix_text(ns / 1_000_000_000)
}

/// Format Unix nanoseconds as `YYYY-MM-DD HH:MM:SS UTC`, dropping the
/// fraction of a second.
pub fn format_ns(ns: u64) -> (s: String)
    ensures
        s@ == unix_ns_text(ns as nat),
{
    format_unix(ns / 1_000_000_000)
}

} // verus!
