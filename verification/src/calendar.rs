//! The proleptic Gregorian calendar, counted in days from 1970-01-01.
use vstd::prelude::*;

verus! {

pub open spec fn is_leap(y: int) -> bool {
    y % 4 == 0 && (y % 100 != 0 || y % 400 == 0)
}

pub open spec fn year_len(y: int) -> int {
    if is_leap(y) { 366 } else { 365 }
}

/// Days in month `m` (1..=12) of year `y`.
pub open spec fn month_len(y: int, m: int) -> int {
    if m == 2 {
        if is_leap(y) { 29 } else { 28 }
    } else if m == 4 || m == 6 || m == 9 || m == 11 {
        30
    } else {
        31
    }
}

/// Days from 1970-01-01 to the first day of year `y` (for `y >= 1970`).
pub open spec fn days_before_year(y: int) -> int
    decreases y - 1970,
{
    if y <= 1970 {
        0
    } else {
        days_before_year(y - 1) + year_len(y - 1)
    }
}

/// Days from the first day of year `y` to the first day of month `m`.
pub open spec fn days_before_month(y: int, m: int) -> int
    decreases m,
{
    if m <= 1 {
        0
    } else {
        days_before_month(y, m - 1) + month_len(y, m - 1)
    }
}

/// The day number of a date: days since 1970-01-01.
pub open spec fn day_number(y: int, m: int, d: int) -> int {
    days_before_year(y) + days_before_month(y, m) + d - 1
}

/// A real date, not before 1970.
pub open spec fn valid_date(y: int, m: int, d: int) -> bool {
    y >= 1970 && 1 <= m <= 12 && 1 <= d <= month_len(y, m)
}

/// Leap years in 1..=x.
pub open spec fn leaps_through(x: int) -> int {
    x / 4 - x / 100 + x / 400
}

pub proof fn lemma_leap_step(y: int)
    requires
        y >= 1,
    ensures
        leaps_through(y) - leaps_through(y - 1) == if is_leap(y) { 1int } else { 0int },
{
}

pub proof fn lemma_days_before_year_closed(y: int)
    requires
        y >= 1970,
    ensures
        days_before_year(y) == 365 * (y - 1970) + leaps_through(y - 1) - leaps_through(1969),
    decreases y - 1970,
{
    if y > 1970 {
        lemma_days_before_year_closed(y - 1);
        lemma_leap_step(y - 1);
    }
}

pub proof fn lemma_days_before_era(e: int)
    requires
        e >= 0,
    ensures
        days_before_year(1970 + 400 * e) == 146097 * e,
{
    lemma_days_before_year_closed(1970 + 400 * e);
    assert(leaps_through(1969 + 400 * e) == leaps_through(1969) + 97 * e);
}

pub proof fn lemma_year_of_months(y: int)
    ensures
        days_before_month(y, 13) == year_len(y),
{
    reveal_with_fuel(days_before_month, 13);
}

fn year_length(y: u64) -> (r: u64)
    ensures
        r == year_len(y as int),
{
    if y % 4 == 0 && (y % 100 != 0 || y % 400 == 0) {
        366
    } else {
        365
    }
}

fn month_length(y: u64, m: u64) -> (r: u64)
    ensures
        r == month_len(y as int, m as int),
{
    if m == 2 {
        if y % 4 == 0 && (y % 100 != 0 || y % 400 == 0) {
            29
        } else {
            28
        }
    } else if m == 4 || m == 6 || m == 9 || m == 11 {
        30
    } else {
        31
    }
}

/// The date of day number `days`, as (year, month, day).
pub fn civil_from_days(days: u64) -> (r: (u64, u64, u64))
    requires
        days <= 0xffff_ffff_ffff,
    ensures
        valid_date(r.0 as int, r.1 as int, r.2 as int),
        day_number(r.0 as int, r.1 as int, r.2 as int) == days,
{
    let era = days / 146097;
    let mut rem = days % 146097;
    let mut y: u64 = 1970 + 400 * era;
    proof {
        lemma_days_before_era(era as int);
        lemma_days_before_year_closed(y as int);
        lemma_days_before_year_closed(y + 400);
        assert(leaps_through(y + 399) == leaps_through(y - 1) + 97);
    }
    let ghost y0 = y;
    while rem >= year_length(y)
        invariant
            y0 <= y <= y0 + 400,
            y0 == 1970 + 400 * era,
            y0 + 400 <= 1970 + 400 * (days / 146097 + 1),
            days_before_year(y as int) + rem == days,
            days_before_year(y0 + 400) == days_before_year(y0 as int) + 146097,
            rem < days_before_year(y0 + 400) - days_before_year(y as int),
        decreases rem,
    {
        rem = rem - year_length(y);
        y = y + 1;
        assert(days_before_year(y as int) == days_before_year(y - 1) + year_len(y - 1));
    }
    // rem now falls inside year y
    proof {
        lemma_year_of_months(y as int);
        reveal_with_fuel(days_before_month, 2);
    }
    let mut m: u64 = 1;
    while rem >= month_length(y, m)
        invariant
            1 <= m <= 12,
            days_before_month(y as int, m as int) + rem < year_len(y as int),
            days_before_month(y as int, 13) == year_len(y as int),
            days_before_year(y as int) + days_before_month(y as int, m as int) + rem == days,
            y >= 1970,
        decreases rem,
    {
        rem = rem - month_length(y, m);
        m = m + 1;
        assert(days_before_month(y as int, m as int) == days_before_month(y as int, m - 1)
            + month_len(y as int, m - 1));
        if m == 13 {
            assert(false);
        }
    }
    (y, m, rem + 1)
}

proof fn lemma_days_before_year_mono(a: int, b: int)
    requires
        1970 <= a < b,
    ensures
        days_before_year(a + 1) <= days_before_year(b),
    decreases b - a,
{
    if a + 1 < b {
        lemma_days_before_year_mono(a, b - 1);
    }
}

proof fn lemma_days_before_month_mono(y: int, a: int, b: int)
    requires
        1 <= a < b,
    ensures
        days_before_month(y, a + 1) <= days_before_month(y, b),
    decreases b - a,
{
    if a + 1 < b {
        lemma_days_before_month_mono(y, a, b - 1);
    }
}

proof fn lemma_days_before_month_nonneg(y: int, m: int)
    ensures
        days_before_month(y, m) >= 0,
    decreases m,
{
    if m > 1 {
        lemma_days_before_month_nonneg(y, m - 1);
    }
}

proof fn lemma_within_year(y: int, m: int, d: int)
    requires
        valid_date(y, m, d),
    ensures
        days_before_year(y) <= day_number(y, m, d) < days_before_year(y + 1),
{
    lemma_year_of_months(y);
    lemma_days_before_month_nonneg(y, m);
    assert(days_before_month(y, m + 1) == days_before_month(y, m) + month_len(y, m));
    if m < 12 {
        lemma_days_before_month_mono(y, m, 13);
    }
    assert(days_before_year(y + 1) == days_before_year(y) + year_len(y));
}

/// Distinct real dates have distinct day numbers: a day number names one date.
pub proof fn lemma_day_number_injective(y1: int, m1: int, d1: int, y2: int, m2: int, d2: int)
    requires
        valid_date(y1, m1, d1),
        valid_date(y2, m2, d2),
        day_number(y1, m1, d1) == day_number(y2, m2, d2),
    ensures
        y1 == y2 && m1 == m2 && d1 == d2,
{
    lemma_within_year(y1, m1, d1);
    lemma_within_year(y2, m2, d2);
    if y1 < y2 {
        lemma_days_before_year_mono(y1, y2);
    } else if y2 < y1 {
        lemma_days_before_year_mono(y2, y1);
    }
    assert(y1 == y2);
    if m1 < m2 {
        lemma_days_before_month_mono(y1, m1, m2);
    } else if m2 < m1 {
        lemma_days_before_month_mono(y1, m2, m1);
    }
}

} // verus!
