//! Timestamps shown in the Members pane: Unix nanoseconds as a UTC date and
//! time in the proleptic Gregorian calendar.

use vstd::prelude::*;
use crate::text::{decimal, decimal_u64, string_of};

verus! {

/// A leap year of the Gregorian calendar.
pub open spec fn is_leap(y: int) -> bool {
    y % 4 == 0 && (y % 100 != 0 || y % 400 == 0)
}

pub open spec fn year_days(y: int) -> int {
    if is_leap(y) {
        366
    } else {
        365
    }
}

/// The number of leap years among the years `1 .. y` (counted with floor
/// division, so it extends below year 1).
pub open spec fn leaps_before(y: int) -> int {
    (y - 1) / 4 - (y - 1) / 100 + (y - 1) / 400
}

/// Days from 1970-01-01 to January 1 of year `y`.
pub open spec fn year_start(y: int) -> int {
    365 * (y - 1970) + leaps_before(y) - leaps_before(1970)
}

pub open spec fn month_days(y: int, m: int) -> int {
    if m == 2 {
        if is_leap(y) {
            29
        } else {
            28
        }
    } else if m == 4 || m == 6 || m == 9 || m == 11 {
        30
    } else {
        31
    }
}

/// Days from January 1 to the first day of month `m` of year `y`.
pub open spec fn month_start(y: int, m: int) -> int
    decreases m,
{
    if m <= 1 {
        0
    } else {
        month_start(y, m - 1) + month_days(y, m - 1)
    }
}

/// `(y, m, d)` is the calendar date `days` days after 1970-01-01.
pub open spec fn is_date_of(days: int, y: int, m: int, d: int) -> bool {
    &&& 1 <= m <= 12
    &&& 1 <= d <= month_days(y, m)
    &&& year_start(y) + month_start(y, m) + d - 1 == days
}

proof fn lemma_div_step(y: int)
    ensures
        y / 4 - (y - 1) / 4 == (if y % 4 == 0 { 1int } else { 0int }),
        y / 100 - (y - 1) / 100 == (if y % 100 == 0 { 1int } else { 0int }),
        y / 400 - (y - 1) / 400 == (if y % 400 == 0 { 1int } else { 0int }),
{
}

proof fn lemma_year_step(y: int)
    ensures
        year_start(y + 1) == year_start(y) + year_days(y),
{
    lemma_div_step(y);
}

proof fn lemma_era_step(y: int)
    ensures
        year_start(y + 400) == year_start(y) + 146097,
{
    assert((y + 399) / 4 == (y - 1) / 4 + 100);
    assert((y + 399) / 100 == (y - 1) / 100 + 4);
    assert((y + 399) / 400 == (y - 1) / 400 + 1);
}

proof fn lemma_era(q: int)
    ensures
        year_start(1970 + 400 * q) == 146097 * q,
    decreases (if q >= 0 { q } else { -q }),
{
    if q > 0 {
        lemma_era(q - 1);
        lemma_era_step(1970 + 400 * (q - 1));
    } else if q < 0 {
        lemma_era(q + 1);
        lemma_era_step(1970 + 400 * q);
    }
}

proof fn lemma_year_total(y: int)
    ensures
        month_start(y, 12) + month_days(y, 12) == year_days(y),
{
    reveal_with_fuel(month_start, 12);
}

fn year_length(y: i64) -> (n: i64)
    ensures
        n == year_days(y as int),
{
    if y % 4 == 0 && (y % 100 != 0 || y % 400 == 0) {
        366
    } else {
        365
    }
}

fn month_length(leap: bool, m: i64) -> (n: i64)
    ensures
        forall|y: int| is_leap(y) == leap ==> n == month_days(y, m as int),
{
    if m == 2 {
        if leap {
            29
        } else {
            28
        }
    } else if m == 4 || m == 6 || m == 9 || m == 11 {
        30
    } else {
        31
    }
}

proof fn lemma_month_bound(y: int, m: int)
    requires
        1 <= m <= 12,
    ensures
        month_start(y, m) + month_days(y, m) <= year_days(y),
        month_start(y, m) >= 0,
{
    reveal_with_fuel(month_start, 13);
}

proof fn lemma_before_epoch(y: int)
    requires
        y <= 1969,
    ensures
        year_start(y) + year_days(y) <= 0,
    decreases 1969 - y,
{
    lemma_year_step(y);
    if y < 1969 {
        lemma_before_epoch(y + 1);
        lemma_year_step(y + 1);
    } else {
        lemma_year_step(1969);
    }
}

proof fn lemma_years_ordered(a: int, b: int)
    requires
        a < b,
    ensures
        year_start(a) + year_days(a) <= year_start(b),
    decreases b - a,
{
    lemma_year_step(a);
    if a + 1 < b {
        lemma_years_ordered(a + 1, b);
        lemma_year_step(a + 1);
    }
}

proof fn lemma_months_ordered(y: int, a: int, b: int)
    requires
        1 <= a < b <= 12,
    ensures
        month_start(y, a) + month_days(y, a) <= month_start(y, b),
    decreases b - a,
{
    if a + 1 < b {
        lemma_months_ordered(y, a + 1, b);
        lemma_month_bound(y, a + 1);
    }
}

/// A day count has exactly one calendar date.
pub proof fn law_date_unique(days: int, y1: int, m1: int, d1: int, y2: int, m2: int, d2: int)
    requires
        is_date_of(days, y1, m1, d1),
        is_date_of(days, y2, m2, d2),
    ensures
        y1 == y2 && m1 == m2 && d1 == d2,
{
    lemma_month_bound(y1, m1);
    lemma_month_bound(y2, m2);
    if y1 < y2 {
        lemma_years_ordered(y1, y2);
    } else if y2 < y1 {
        lemma_years_ordered(y2, y1);
    } else if m1 < m2 {
        lemma_months_ordered(y1, m1, m2);
    } else if m2 < m1 {
        lemma_months_ordered(y1, m2, m1);
    }
}

/// Splits a day count into whole 400-year eras and the days left.
fn split_era(days: i64) -> (qr: (i64, i64))
    ensures
        days == 146097 * qr.0 + qr.1,
        0 <= qr.1 < 146097,
        -100_000_000_000_000 <= qr.0 <= 100_000_000_000_000,
{
    let q: i64 = match days.checked_div_euclid(146097) {
        Some(v) => v,
        None => 0,
    };
    let r: i64 = match days.checked_rem_euclid(146097) {
        Some(v) => v,
        None => 0,
    };
    assert(q == days / 146097 && r == days % 146097);
    assert(days == 146097 * q + r);
    (q, r)
}

/// The year holding day `rest` of the era that starts on January 1 of
/// `base`, and the day of that year.
fn find_year(base: i64, rest: i64) -> (yr: (i64, i64))
    requires
        -40_000_000_000_000_000 <= base <= 40_000_000_000_000_000,
        0 <= rest < 146097,
    ensures
        year_start(yr.0 as int) + yr.1 == year_start(base as int) + rest,
        0 <= yr.1 < year_days(yr.0 as int),
{
    let mut year: i64 = base;
    let mut rest: i64 = rest;
    let ghost total = year_start(base as int) + rest;
    while rest >= year_length(year)
        invariant
            -40_000_000_000_000_000 <= base <= 40_000_000_000_000_000,
            base <= year <= base + 400,
            0 <= rest,
            year_start(year as int) + rest == total,
            total - year_start(base as int) < 146097,
        decreases rest,
    {
        proof {
            lemma_year_step(year as int);
            if year == base + 400 {
                lemma_era_step(base as int);
            }
        }
        let len = year_length(year);
        rest = rest - len;
        year = year + 1;
    }
    (year, rest)
}

/// The month holding day `rest` of year `year`, and the day of that month
/// (counted from zero).
fn find_month(year: i64, rest: i64) -> (md: (i64, i64))
    requires
        0 <= rest < year_days(year as int),
    ensures
        1 <= md.0 <= 12,
        0 <= md.1 < month_days(year as int, md.0 as int),
        month_start(year as int, md.0 as int) + md.1 == rest,
{
    let leap = year % 4 == 0 && (year % 100 != 0 || year % 400 == 0);
    assert(leap == is_leap(year as int));
    proof {
        lemma_year_total(year as int);
    }
    let mut month: i64 = 1;
    let mut rest: i64 = rest;
    let ghost total = rest;
    while month < 12 && rest >= month_length(leap, month)
        invariant
            1 <= month <= 12,
            0 <= rest,
            leap == is_leap(year as int),
            month_start(year as int, month as int) + rest == total,
            total < year_days(year as int),
            month_start(year as int, 12) + month_days(year as int, 12) == year_days(year as int),
        decreases 12 - month,
    {
        let len = month_length(leap, month);
        rest = rest - len;
        month = month + 1;
    }
    (month, rest)
}

/// The calendar date `days_since_epoch` days after 1970-01-01, as
/// `(year, month, day)`.
pub fn civil_from_days(days_since_epoch: i64) -> (date: (i64, i64, i64))
    ensures
        is_date_of(days_since_epoch as int, date.0 as int, date.1 as int, date.2 as int),
{
    let (q, r) = split_era(days_since_epoch);
    let base: i64 = 1970 + 400 * q;
    proof {
        lemma_era(q as int);
    }
    let (year, day_of_year) = find_year(base, r);
    let (month, day_of_month) = find_month(year, day_of_year);
    (year, month, day_of_month + 1)
}

/// `n` in decimal, padded with leading zeros to at least `width` digits.
pub open spec fn padded(n: nat, width: nat) -> Seq<char> {
    let digits = decimal(n);
    if digits.len() >= width {
        digits
    } else {
        Seq::new((width - digits.len()) as nat, |i: int| '0') + digits
    }
}

fn pad_decimal(n: u64, width: usize) -> (s: Vec<char>)
    ensures
        s@ == padded(n as nat, width as nat),
{
    let digits = decimal_u64(n);
    if digits.len() >= width {
        return digits;
    }
    let fill = width - digits.len();
    let mut s: Vec<char> = Vec::with_capacity(width);
    let mut i: usize = 0;
    while i < fill
        invariant
            i <= fill,
            s@ == Seq::new(i as nat, |k: int| '0'),
        decreases fill - i,
    {
        s.push('0');
        i = i + 1;
        assert(s@ =~= Seq::new(i as nat, |k: int| '0'));
    }
    let ghost zeros = s@;
    let mut j: usize = 0;
    while j < digits.len()
        invariant
            j <= digits@.len(),
            s@ == zeros + digits@.take(j as int),
        decreases digits@.len() - j,
    {
        s.push(digits[j]);
        j = j + 1;
        assert(s@ =~= zeros + digits@.take(j as int));
    }
    assert(digits@.take(digits@.len() as int) =~= digits@);
    s
}

fn append(s: &mut Vec<char>, more: &Vec<char>)
    ensures
        final(s)@ == old(s)@ + more@,
{
    let ghost start = s@;
    let mut i: usize = 0;
    while i < more.len()
        invariant
            i <= more@.len(),
            s@ == start + more@.take(i as int),
        decreases more@.len() - i,
    {
        s.push(more[i]);
        i = i + 1;
        assert(s@ =~= start + more@.take(i as int));
    }
    assert(more@.take(more@.len() as int) =~= more@);
}

/// `YYYY-MM-DD hh:mm:ss UTC` for a time `seconds` seconds after the Unix
/// epoch, on the date `(y, m, d)`.
pub open spec fn timestamp_text(y: int, m: int, d: int, seconds: int) -> Seq<char> {
    padded(y as nat, 4) + seq!['-'] + padded(m as nat, 2) + seq!['-'] + padded(d as nat, 2) + seq![' ']
        + padded((seconds % 86400 / 3600) as nat, 2) + seq![':'] + padded((seconds % 3600 / 60) as nat, 2) + seq![
        ':',
    ] + padded((seconds % 60) as nat, 2) + seq![' ', 'U', 'T', 'C']
}

/// A Unix timestamp in nanoseconds as a UTC date and time; a timestamp that
/// is not after the epoch shows as `unknown`.
pub fn format_timestamp(timestamp_ns: i64, unknown: &str) -> (text: String)
    ensures
        timestamp_ns <= 0 ==> text@ == unknown@,
        timestamp_ns > 0 ==> exists|y: int, m: int, d: int|
            #[trigger] is_date_of(timestamp_ns / 1_000_000_000 / 86400, y, m, d) && text@ == timestamp_text(
                y,
                m,
                d,
                timestamp_ns / 1_000_000_000,
            ),
{
    if timestamp_ns <= 0 {
        return String::from_str(unknown);
    }
    let total_seconds: i64 = timestamp_ns / 1_000_000_000;
    let days: i64 = total_seconds / 86400;
    let seconds: i64 = total_seconds % 86400;
    let (year, month, day) = civil_from_days(days);
    assert(year_start(year as int) + month_start(year as int, month as int) + day - 1 == days);
    assert(year >= 1970) by {
        lemma_month_bound(year as int, month as int);
        if year < 1970 {
            lemma_before_epoch(year as int);
        }
    }
    let hours: u64 = (seconds / 3600) as u64;
    let minutes: u64 = (seconds % 3600 / 60) as u64;
    let secs: u64 = (seconds % 60) as u64;
    let mut s = pad_decimal(year as u64, 4);
    s.push('-');
    append(&mut s, &pad_decimal(month as u64, 2));
    s.push('-');
    append(&mut s, &pad_decimal(day as u64, 2));
    s.push(' ');
    append(&mut s, &pad_decimal(hours, 2));
    s.push(':');
    append(&mut s, &pad_decimal(minutes, 2));
    s.push(':');
    append(&mut s, &pad_decimal(secs, 2));
    s.push(' ');
    s.push('U');
    s.push('T');
    s.push('C');
    assert(seconds % 86400 == seconds);
    assert(total_seconds % 3600 == seconds % 3600) by (nonlinear_arith)
        requires
            seconds == total_seconds % 86400,
            total_seconds >= 0,
    ;
    assert(total_seconds % 60 == seconds % 60) by (nonlinear_arith)
        requires
            seconds == total_seconds % 86400,
            total_seconds >= 0,
    ;
    assert(s@ =~= timestamp_text(year as int, month as int, day as int, total_seconds as int));
    string_of(s.as_slice())
}

} // verus!
