//! Calendar dates and times of day, their text forms, and the calendar
//! arithmetic that chrono performs for the library.
use vstd::prelude::*;

use chrono::Datelike;

use crate::text::{
    all_digits, append_chars, append_str, dec, dec_chars_pad, digits_value, is_digit, pad0, slice_of, string_of,
};

verus! {

/// A calendar date in the proleptic Gregorian calendar.
#[derive(Clone, Copy, Debug, PartialEq, Eq, Structural)]
pub struct Date {
    pub year: i32,
    pub month: u32,
    pub day: u32,
}

/// A time of day with minute resolution.
#[derive(Clone, Copy, Debug, PartialEq, Eq, Structural)]
pub struct Time {
    pub hour: u32,
    pub minute: u32,
}

/// A date and a time of day with second resolution.
#[derive(Clone, Copy, Debug, PartialEq, Eq, Structural)]
pub struct DateTime {
    pub date: Date,
    /// Seconds since midnight.
    pub second: u32,
}

/// The earliest year chrono's `NaiveDate` represents.
pub open spec fn min_year() -> int {
    -262143
}

/// The latest year chrono's `NaiveDate` represents.
pub open spec fn max_year() -> int {
    262142
}

/// Gregorian leap years.
pub open spec fn is_leap(y: int) -> bool {
    (y % 4 == 0 && y % 100 != 0) || y % 400 == 0
}

/// The number of days in month `m` of year `y`.
pub open spec fn days_in_month(y: int, m: int) -> int {
    if m == 2 {
        if is_leap(y) {
            29
        } else {
            28
        }
    } else if m == 4 || m == 6 || m == 9 || m == 11 {
        30
    } else {
        31
    }
}

/// Whether year, month and day name a day that chrono's `NaiveDate` represents.
pub open spec fn valid_ymd(y: int, m: int, d: int) -> bool {
    min_year() <= y <= max_year() && 1 <= m <= 12 && 1 <= d <= days_in_month(y, m)
}

impl Date {
    /// The date names an existing day.
    pub open spec fn wf(self) -> bool {
        valid_ymd(self.year as int, self.month as int, self.day as int)
    }

    /// Chronological order (lexicographic on year, month, day).
    pub open spec fn lt(self, other: Date) -> bool {
        self.year < other.year || (self.year == other.year && (self.month < other.month || (
        self.month == other.month && self.day < other.day)))
    }

    /// `self` is before `other`.
    pub fn before(&self, other: &Date) -> (r: bool)
        ensures
            r == self.lt(*other),
    {
        self.year < other.year || (self.year == other.year && (self.month < other.month || (
        self.month == other.month && self.day < other.day)))
    }
}

impl Time {
    /// Hours and minutes are in range.
    pub open spec fn wf(self) -> bool {
        self.hour < 24 && self.minute < 60
    }

    /// Minutes since midnight.
    pub open spec fn mins(self) -> int {
        self.hour * 60 + self.minute
    }

    /// Minutes since midnight.
    pub fn minutes(&self) -> (r: i64)
        requires
            self.wf(),
        ensures
            r == self.mins(),
    {
        (self.hour as i64) * 60 + (self.minute as i64)
    }

    /// The time of day `m` minutes after midnight.
    pub fn from_minutes(m: i64) -> (t: Time)
        requires
            0 <= m < 1440,
        ensures
            t.wf(),
            t.mins() == m,
    {
        Time { hour: (m / 60) as u32, minute: (m % 60) as u32 }
    }
}

impl DateTime {
    /// The date is valid and the second is within the day.
    pub open spec fn wf(self) -> bool {
        self.date.wf() && self.second < 86400
    }

    /// The start of minute `t` on date `d`.
    pub fn at(d: Date, t: Time) -> (r: DateTime)
        requires
            t.wf(),
        ensures
            r.date == d,
            r.second == t.mins() * 60,
    {
        DateTime { date: d, second: t.hour * 3600 + t.minute * 60 }
    }
}

// ---------------------------------------------------------------------------
// Calendar arithmetic from chrono
// ---------------------------------------------------------------------------

/// The days of year `y` before month `m`.
pub open spec fn days_before_month(y: int, m: int) -> int {
    let base: int = if m <= 1 {
        0
    } else if m == 2 {
        31
    } else if m == 3 {
        59
    } else if m == 4 {
        90
    } else if m == 5 {
        120
    } else if m == 6 {
        151
    } else if m == 7 {
        181
    } else if m == 8 {
        212
    } else if m == 9 {
        243
    } else if m == 10 {
        273
    } else if m == 11 {
        304
    } else {
        334
    };
    base + if m > 2 && is_leap(y) {
        1int
    } else {
        0int
    }
}

/// The days before January 1 of year `y`, counted from January 1 of year 1.
pub open spec fn days_before_year(y: int) -> int {
    365 * (y - 1) + (y - 1) / 4 - (y - 1) / 100 + (y - 1) / 400
}

/// The day count of a date in the proleptic Gregorian calendar, January 1
/// of year 1 being day 1: chrono's `Datelike::num_days_from_ce`.
#[verifier::opaque]
pub open spec fn chrono_day_number(y: int, m: int, d: int) -> int {
    days_before_year(y) + days_before_month(y, m) + d
}

/// The date `n` days after a date: chrono's `NaiveDate::checked_add_signed`,
/// which gives the date with that day count, or nothing when it lies
/// outside the years chrono represents.
pub open spec fn chrono_add_days(y: int, m: int, d: int, n: int) -> Option<(int, int, int)> {
    let target = chrono_day_number(y, m, d) + n;
    if exists|t: (int, int, int)| valid_ymd(t.0, t.1, t.2) && chrono_day_number(t.0, t.1, t.2) == target {
        Some(
            choose|t: (int, int, int)|
                valid_ymd(t.0, t.1, t.2) && chrono_day_number(t.0, t.1, t.2) == target,
        )
    } else {
        None
    }
}

/// The day of the week, counted from Monday: chrono's
/// `Weekday::num_days_from_monday`. January 1 of year 1 was a Monday.
#[verifier::opaque]
pub open spec fn chrono_weekday(y: int, m: int, d: int) -> int {
    (chrono_day_number(y, m, d) - 1) % 7
}

proof fn lemma_step_4(y: int)
    ensures
        y / 4 - (y - 1) / 4 == if y % 4 == 0 { 1int } else { 0int },
{
}

proof fn lemma_step_100(y: int)
    ensures
        y / 100 - (y - 1) / 100 == if y % 100 == 0 { 1int } else { 0int },
        y % 100 == 0 ==> y % 4 == 0,
{
}

proof fn lemma_step_400(y: int)
    ensures
        y / 400 - (y - 1) / 400 == if y % 400 == 0 { 1int } else { 0int },
        y % 400 == 0 ==> y % 100 == 0,
{
}

#[verifier::spinoff_prover]
proof fn lemma_year_step(y: int)
    ensures
        days_before_year(y + 1) == days_before_year(y) + 365 + if is_leap(y) {
            1int
        } else {
            0int
        },
{
    lemma_step_4(y);
    lemma_step_100(y);
    lemma_step_400(y);
}

proof fn lemma_year_order(y: int, z: int)
    requires
        y < z,
    ensures
        days_before_year(y) + 365 + (if is_leap(y) {
            1int
        } else {
            0int
        }) <= days_before_year(z),
    decreases z - y,
{
    lemma_year_step(y);
    if z > y + 1 {
        lemma_year_order(y + 1, z);
    }
}

/// The day count follows the calendar: an earlier valid date has a smaller
/// count.
pub proof fn lemma_day_number_order(a: Date, b: Date)
    requires
        a.wf(),
        b.wf(),
        a.lt(b),
    ensures
        day_number(a) < day_number(b),
{
    reveal(chrono_day_number);
    let (ya, ma, da) = (a.year as int, a.month as int, a.day as int);
    let (yb, mb, db) = (b.year as int, b.month as int, b.day as int);
    assert(days_before_month(ya, ma) + da <= 365 + if is_leap(ya) { 1int } else { 0int });
    if ya < yb {
        lemma_year_order(ya, yb);
    } else if ma < mb {
        assert(days_before_month(ya, ma) + days_in_month(ya, ma) <= days_before_month(ya, mb));
    }
}

/// Valid dates are ordered as their day counts are.
pub proof fn lemma_day_number_lt(a: Date, b: Date)
    requires
        a.wf(),
        b.wf(),
    ensures
        a.lt(b) <==> day_number(a) < day_number(b),
        day_number(a) == day_number(b) <==> a == b,
{
    if a.lt(b) {
        lemma_day_number_order(a, b);
    } else if b.lt(a) {
        lemma_day_number_order(b, a);
    }
}

/// The first date chrono represents: January 1 of its earliest year.
pub open spec fn first_date() -> Date {
    Date { year: min_year() as i32, month: 1, day: 1 }
}

/// The day before `d`.
pub open spec fn prev_day(d: Date) -> Date {
    if d.day > 1 {
        Date { day: (d.day - 1) as u32, ..d }
    } else if d.month > 1 {
        Date { month: (d.month - 1) as u32, day: days_in_month(d.year as int, d.month - 1) as u32, ..d }
    } else {
        Date { year: (d.year - 1) as i32, month: 12, day: 31 }
    }
}

proof fn lemma_prev_day(d: Date)
    requires
        d.wf(),
        d != first_date(),
    ensures
        prev_day(d).wf(),
        day_number(prev_day(d)) == day_number(d) - 1,
{
    reveal(chrono_day_number);
    let y = d.year as int;
    let m = d.month as int;
    if d.day > 1 {
    } else if d.month > 1 {
        assert(days_before_month(y, m - 1) + days_in_month(y, m - 1) == days_before_month(y, m));
    } else {
        lemma_year_step(y - 1);
    }
}

/// Every day count from chrono's first date up to that of a valid date is
/// the count of some valid date.
pub proof fn lemma_day_exists(e: Date, t: int)
    requires
        e.wf(),
        day_number(first_date()) <= t <= day_number(e),
    ensures
        exists|x: (int, int, int)| valid_ymd(x.0, x.1, x.2) && chrono_day_number(x.0, x.1, x.2) == t,
    decreases day_number(e) - t,
{
    if t == day_number(e) {
        let x = (e.year as int, e.month as int, e.day as int);
        assert(valid_ymd(x.0, x.1, x.2) && chrono_day_number(x.0, x.1, x.2) == t);
    } else {
        assert(e != first_date());
        lemma_prev_day(e);
        lemma_day_exists(prev_day(e), t);
    }
}

/// A date after chrono's earliest year lies at least a year after its first
/// date.
pub proof fn lemma_after_first_year(d: Date)
    requires
        d.wf(),
        d.year > min_year(),
    ensures
        day_number(d) >= day_number(first_date()) + 365,
{
    let j = Date { year: (min_year() + 1) as i32, month: 1, day: 1 };
    lemma_day_number_lt(j, d);
    reveal(chrono_day_number);
    lemma_year_step(min_year());
}

/// The day count of January 1 of year `y`.
#[verifier::opaque]
pub open spec fn jan1(y: int) -> int {
    days_before_year(y) + 1
}

/// The day count of the Thursday in the week, Monday to Sunday, of day `n`.
pub open spec fn thursday_of(n: int) -> int {
    n - (n - 1) % 7 + 3
}

/// The number of ISO weeks of year `y`: 53 when the year begins on a
/// Thursday, or on a Wednesday in a leap year; otherwise 52.
pub open spec fn iso_weeks_in(y: int) -> int {
    let w = (jan1(y) - 1) % 7;
    if w == 3 || (w == 2 && is_leap(y)) {
        53
    } else {
        52
    }
}

/// The ISO 8601 week-numbering year and week of a date: chrono's
/// `Datelike::iso_week`. A week belongs to the year of its Thursday and is
/// numbered from the week holding that year's first Thursday.
#[verifier::opaque]
pub open spec fn chrono_iso_week(y: int, m: int, d: int) -> (int, int) {
    let t = thursday_of(chrono_day_number(y, m, d));
    let iy = if t < jan1(y) {
        y - 1
    } else if t >= jan1(y + 1) {
        y + 1
    } else {
        y
    };
    (iy, (t - jan1(iy)) / 7 + 1)
}

/// The valid date with day count `n`, if chrono represents one.
pub open spec fn date_numbered(n: int) -> Option<(int, int, int)> {
    if exists|t: (int, int, int)| valid_ymd(t.0, t.1, t.2) && chrono_day_number(t.0, t.1, t.2) == n {
        Some(choose|t: (int, int, int)| valid_ymd(t.0, t.1, t.2) && chrono_day_number(t.0, t.1, t.2) == n)
    } else {
        None
    }
}

/// The Monday of ISO week `week` of `year`: chrono's
/// `NaiveDate::from_isoywd_opt` with `Weekday::Mon`. Week 1 is the week
/// holding January 4; there is none for a week number out of the year's
/// range or a date chrono does not represent.
#[verifier::opaque]
pub open spec fn chrono_iso_monday(year: int, week: int) -> Option<(int, int, int)> {
    if 1 <= week <= iso_weeks_in(year) {
        let j4 = jan1(year) + 3;
        date_numbered(j4 - (j4 - 1) % 7 + 7 * (week - 1))
    } else {
        None
    }
}

/// The day count of a date.
pub open spec fn day_number(d: Date) -> int {
    chrono_day_number(d.year as int, d.month as int, d.day as int)
}

/// The date as a triple of integers.
pub open spec fn ymd(d: Date) -> (int, int, int) {
    (d.year as int, d.month as int, d.day as int)
}

proof fn lemma_jan1_step(y: int)
    ensures
        jan1(y + 1) == jan1(y) + 365 + if is_leap(y) {
            1int
        } else {
            0int
        },
{
    reveal(jan1);
    lemma_year_step(y);
}

proof fn lemma_in_year(y: int, m: int, d: int)
    requires
        valid_ymd(y, m, d),
    ensures
        jan1(y) <= chrono_day_number(y, m, d) < jan1(y + 1),
{
    reveal(chrono_day_number);
    reveal(jan1);
    lemma_year_step(y);
    assert(days_before_month(y, m) + d <= 365 + if is_leap(y) { 1int } else { 0int });
}

proof fn lemma_year_unique(a: int, b: int, x: int)
    requires
        jan1(a) <= x < jan1(a + 1),
        jan1(b) <= x < jan1(b + 1),
    ensures
        a == b,
{
    reveal(jan1);
    if a < b {
        lemma_year_order(a, b);
        lemma_year_step(a);
    } else if b < a {
        lemma_year_order(b, a);
        lemma_year_step(b);
    }
}

proof fn lemma_thursday(n: int)
    ensures
        n - 3 <= thursday_of(n) <= n + 3,
        (thursday_of(n) - 1) % 7 == 3,
        (thursday_of(n) - 3 - 1) % 7 == 0,
{
    let q = (n - 1) / 7;
    assert(n - 1 == 7 * q + (n - 1) % 7);
    assert(thursday_of(n) - 1 == 7 * q + 3);
    assert(thursday_of(n) - 4 == 7 * q);
}

/// What the ISO week of a valid date is made of: its Thursday lies in the
/// ISO year, which is the calendar year or a neighbour, and the week is
/// counted from that year's first Thursday, within the year's weeks.
pub proof fn lemma_iso_week_facts(y: int, m: int, d: int)
    requires
        valid_ymd(y, m, d),
    ensures
        ({
            let t = thursday_of(chrono_day_number(y, m, d));
            let k = chrono_iso_week(y, m, d);
            &&& y - 1 <= k.0 <= y + 1
            &&& jan1(k.0) <= t < jan1(k.0 + 1)
            &&& k.1 == (t - jan1(k.0)) / 7 + 1
            &&& 1 <= k.1 <= iso_weeks_in(k.0)
            &&& k.1 <= 53
        }),
{
    reveal(chrono_iso_week);
    let n = chrono_day_number(y, m, d);
    let t = thursday_of(n);
    lemma_in_year(y, m, d);
    lemma_thursday(n);
    lemma_jan1_step(y - 1);
    lemma_jan1_step(y);
    lemma_jan1_step(y + 1);
    let iy = chrono_iso_week(y, m, d).0;
    assert(jan1(iy) <= t < jan1(iy + 1));
    lemma_jan1_step(iy);
    let off = t - jan1(iy);
    let q = (t - 1) / 7;
    assert(t - 1 == 7 * q + 3);
    if off == 364 {
        vstd::arithmetic::div_mod::lemma_fundamental_div_mod_converse(jan1(iy) - 1, 7, q - 52, 3);
    } else if off == 365 {
        vstd::arithmetic::div_mod::lemma_fundamental_div_mod_converse(jan1(iy) - 1, 7, q - 52, 2);
    }
}

/// The ISO Monday of a valid date after chrono's earliest year exists: it
/// is the Monday of the date's week.
pub proof fn lemma_iso_monday_exists(y: int, m: int, d: int)
    requires
        valid_ymd(y, m, d),
        y > min_year(),
    ensures
        ({
            let k = chrono_iso_week(y, m, d);
            let n = chrono_day_number(y, m, d);
            chrono_iso_monday(k.0, k.1) == date_numbered(thursday_of(n) - 3)
                && chrono_iso_monday(k.0, k.1) is Some
        }),
{
    reveal(chrono_iso_monday);
    lemma_iso_week_facts(y, m, d);
    let k = chrono_iso_week(y, m, d);
    let n = chrono_day_number(y, m, d);
    let t = thursday_of(n);
    lemma_thursday(n);
    let j4 = jan1(k.0) + 3;
    let m1 = j4 - (j4 - 1) % 7;
    lemma_thursday(j4);
    assert(thursday_of(j4) - 3 == m1);
    let k0 = m1 + 3 - jan1(k.0);
    assert(0 <= k0 <= 6);
    let a = (t - 4) / 7;
    let b = (m1 - 1) / 7;
    assert(t - 4 == 7 * a);
    assert(m1 - 1 == 7 * b);
    assert(t - jan1(k.0) == (a - b) * 7 + k0);
    vstd::arithmetic::div_mod::lemma_fundamental_div_mod_converse(t - jan1(k.0), 7, a - b, k0);
    assert(m1 + 7 * (k.1 - 1) == t - 3);
    let dt = Date { year: y as i32, month: m as u32, day: d as u32 };
    assert(day_number(dt) == n);
    lemma_after_first_year(dt);
    lemma_day_exists(dt, t - 3);
}

/// A Monday chrono gives for an ISO week is a valid Monday in that week.
pub proof fn lemma_iso_monday_facts(year: int, week: int)
    ensures
        chrono_iso_monday(year, week) matches Some(x) ==> {
            &&& valid_ymd(x.0, x.1, x.2)
            &&& chrono_iso_week(x.0, x.1, x.2) == (year, week)
            &&& chrono_weekday(x.0, x.1, x.2) == 0
        },
{
    reveal(chrono_iso_monday);
    if let Some(x) = chrono_iso_monday(year, week) {
        let j4 = jan1(year) + 3;
        let m1 = j4 - (j4 - 1) % 7;
        let mm = m1 + 7 * (week - 1);
        assert(date_numbered(mm) == Some(x));
        assert(valid_ymd(x.0, x.1, x.2) && chrono_day_number(x.0, x.1, x.2) == mm);
        lemma_thursday(j4);
        let b = (m1 - 1) / 7;
        assert(m1 - 1 == 7 * b);
        assert(mm - 1 == 7 * (b + week - 1));
        vstd::arithmetic::div_mod::lemma_fundamental_div_mod_converse(mm - 1, 7, b + week - 1, 0);
        assert(chrono_weekday(x.0, x.1, x.2) == 0) by {
            reveal(chrono_weekday);
        }
        lemma_thursday(mm);
        assert(thursday_of(mm) == mm + 3);
        let k0 = m1 + 3 - jan1(year);
        assert(0 <= k0 <= 6);
        lemma_jan1_step(year);
        let w0 = (jan1(year) - 1) % 7;
        assert((w0 == 3 ==> k0 == 0) && (w0 == 2 ==> k0 == 1)) by {
            let c = (jan1(year) - 1) / 7;
            assert(jan1(year) - 1 == 7 * c + w0);
            assert(j4 - 1 == 7 * c + w0 + 3);
            if w0 == 3 {
                vstd::arithmetic::div_mod::lemma_fundamental_div_mod_converse(j4 - 1, 7, c, 6);
            } else if w0 == 2 {
                vstd::arithmetic::div_mod::lemma_fundamental_div_mod_converse(j4 - 1, 7, c, 5);
            }
        }
        assert(jan1(year) <= mm + 3 < jan1(year + 1));
        lemma_iso_week_facts(x.0, x.1, x.2);
        let k = chrono_iso_week(x.0, x.1, x.2);
        lemma_year_unique(k.0, year, mm + 3);
        vstd::arithmetic::div_mod::lemma_fundamental_div_mod_converse(mm + 3 - jan1(year), 7, week - 1, k0);
    }
}

/// Whether chrono's `NaiveDate::from_ymd_opt` accepts the triple.
///
/// Calls `NaiveDate::from_ymd_opt`; the contract states what its
/// documentation lists: `None` for a day that does not exist, an invalid month
/// or day, or a year out of range (chrono's `MIN_YEAR` and `MAX_YEAR`).
#[verifier::external_body]
pub(crate) fn ymd_exists(y: i32, m: u32, d: u32) -> (r: bool)
    ensures
        r == valid_ymd(y as int, m as int, d as int),
{
    chrono::NaiveDate::from_ymd_opt(y, m, d).is_some()
}

/// The day count of a date (`Datelike::num_days_from_ce`), as its
/// documentation states it: days in the proleptic Gregorian calendar with
/// January 1 of year 1 as day 1.
#[verifier::external_body]
pub(crate) fn day_count(d: Date) -> (r: i32)
    requires
        d.wf(),
    ensures
        r == chrono_day_number(d.year as int, d.month as int, d.day as int),
{
    chrono::NaiveDate::from_ymd_opt(d.year, d.month, d.day).unwrap().num_days_from_ce()
}

/// The date `n` days after `d` (`NaiveDate::checked_add_signed`).
///
/// The contract states that the result is the valid date whose day count is
/// `n` more than that of `d`, or nothing when there is none in chrono's
/// range of years, which is what the function's documentation describes.
#[verifier::external_body]
pub fn add_days(d: Date, n: i32) -> (r: Option<Date>)
    requires
        d.wf(),
    ensures
        r matches Some(x) ==> chrono_add_days(d.year as int, d.month as int, d.day as int, n as int)
            == Some(ymd(x)),
        r is None ==> chrono_add_days(d.year as int, d.month as int, d.day as int, n as int)
            is None,
        r matches Some(x) ==> x.wf() && chrono_day_number(x.year as int, x.month as int, x.day as int)
            == chrono_day_number(d.year as int, d.month as int, d.day as int) + n,
{
    let base = chrono::NaiveDate::from_ymd_opt(d.year, d.month, d.day).unwrap();
    base.checked_add_signed(chrono::TimeDelta::days(n as i64)).map(
        |x| Date { year: x.year(), month: x.month(), day: x.day() },
    )
}

/// The day of the week of `d`, counted from Monday = 0
/// (`Weekday::num_days_from_monday` of `Datelike::weekday`).
///
/// The contract states the result as the day count taken modulo 7, January
/// 1 of year 1 being a Monday.
#[verifier::external_body]
pub fn weekday(d: Date) -> (r: u32)
    requires
        d.wf(),
    ensures
        r == chrono_weekday(d.year as int, d.month as int, d.day as int),
        r < 7,
{
    chrono::NaiveDate::from_ymd_opt(d.year, d.month, d.day).unwrap().weekday().num_days_from_monday()
}

/// chrono's ISO 8601 week-numbering year and week of `d`
/// (`Datelike::iso_week`).
///
/// The contract states the result by the ISO rule of `chrono_iso_week`.
#[verifier::external_body]
fn iso_week_chrono(d: Date) -> (r: (i32, u32))
    requires
        d.wf(),
    ensures
        (r.0 as int, r.1 as int) == chrono_iso_week(d.year as int, d.month as int, d.day as int),
{
    let w = chrono::NaiveDate::from_ymd_opt(d.year, d.month, d.day).unwrap().iso_week();
    (w.year(), w.week())
}

/// chrono's Monday of ISO week `week` of `year`
/// (`NaiveDate::from_isoywd_opt` with `Weekday::Mon`).
///
/// The contract states the result by the ISO rule of `chrono_iso_monday`.
/// The year must have neighbours in `i32`: chrono computes `year - 1` or
/// `year + 1` when the week starts or ends in another calendar year.
#[verifier::external_body]
fn iso_monday_chrono(year: i32, week: u32) -> (r: Option<Date>)
    requires
        i32::MIN < year < i32::MAX,
    ensures
        r matches Some(x) ==> chrono_iso_monday(year as int, week as int) == Some(ymd(x)),
        r is None ==> chrono_iso_monday(year as int, week as int) is None,
{
    chrono::NaiveDate::from_isoywd_opt(year, week, chrono::Weekday::Mon).map(
        |x| Date { year: x.year(), month: x.month(), day: x.day() },
    )
}

/// The ISO 8601 week-numbering year and week of `d`: the week number is 1
/// to 53, the ISO year is the calendar year or a neighbour, and the week's
/// Monday exists unless `d` is in chrono's earliest year.
pub fn iso_week(d: Date) -> (r: (i32, u32))
    requires
        d.wf(),
    ensures
        (r.0 as int, r.1 as int) == chrono_iso_week(d.year as int, d.month as int, d.day as int),
        1 <= r.1 <= 53,
        d.year - 1 <= r.0 <= d.year + 1,
        d.year > min_year() ==> chrono_iso_monday(r.0 as int, r.1 as int) is Some,
{
    proof {
        lemma_iso_week_facts(d.year as int, d.month as int, d.day as int);
        if d.year > min_year() {
            lemma_iso_monday_exists(d.year as int, d.month as int, d.day as int);
        }
    }
    iso_week_chrono(d)
}

/// The Monday of ISO week `week` of `year`, if that week exists: a valid
/// Monday in that ISO week.
pub fn iso_monday(year: i32, week: u32) -> (r: Option<Date>)
    requires
        i32::MIN < year < i32::MAX,
    ensures
        r matches Some(x) ==> chrono_iso_monday(year as int, week as int) == Some(ymd(x)),
        r is None ==> chrono_iso_monday(year as int, week as int) is None,
        r matches Some(x) ==> x.wf() && chrono_iso_week(x.year as int, x.month as int, x.day as int)
            == (year as int, week as int) && chrono_weekday(
            x.year as int,
            x.month as int,
            x.day as int,
        ) == 0,
{
    proof {
        lemma_iso_monday_facts(year as int, week as int);
    }
    iso_monday_chrono(year, week)
}

/// The reason chrono's `NaiveDate::parse_from_str(s, "%Y-%m-%d")` gives
/// for refusing `s` (its `ParseError` as text), or nothing when it accepts.
pub uninterp spec fn chrono_date_reason(s: Seq<char>) -> Option<Seq<char>>;

/// The reason chrono's `NaiveTime::parse_from_str(s, "%H:%M")` gives for
/// refusing `s` (its `ParseError` as text), or nothing when it accepts.
pub uninterp spec fn chrono_time_reason(s: Seq<char>) -> Option<Seq<char>>;

/// Why chrono refuses `s` as a `%Y-%m-%d` date (`NaiveDate::parse_from_str`
/// and the `Display` text of its `ParseError`).
///
/// The contract names the result; which reason chrono gives is not stated.
#[verifier::external_body]
pub(crate) fn date_reason(s: &str) -> (r: Option<String>)
    ensures
        match r {
            Some(t) => chrono_date_reason(s@) == Some(t@),
            None => chrono_date_reason(s@) is None,
        },
{
    match chrono::NaiveDate::parse_from_str(s, "%Y-%m-%d") {
        Ok(_) => None,
        Err(e) => Some(e.to_string()),
    }
}

/// Why chrono refuses `s` as a `%H:%M` time (`NaiveTime::parse_from_str`
/// and the `Display` text of its `ParseError`).
///
/// The contract names the result; which reason chrono gives is not stated.
#[verifier::external_body]
pub(crate) fn time_reason(s: &str) -> (r: Option<String>)
    ensures
        match r {
            Some(t) => chrono_time_reason(s@) == Some(t@),
            None => chrono_time_reason(s@) is None,
        },
{
    match chrono::NaiveTime::parse_from_str(s, "%H:%M") {
        Ok(_) => None,
        Err(e) => Some(e.to_string()),
    }
}

/// `: <reason>` when there is a reason.
pub open spec fn reason_suffix(r: Option<Seq<char>>) -> Seq<char> {
    match r {
        Some(t) => ": "@ + t,
        None => Seq::empty(),
    }
}

/// `<lead>'<s>'`, then chrono's reason for refusing `s`, if it gives one.
pub open spec fn refusal_text(lead: Seq<char>, s: Seq<char>, reason: Option<Seq<char>>) -> Seq<char> {
    lead + "'"@ + s + "'"@ + reason_suffix(reason)
}

/// The message for a date chrono's reason explains: `<lead>'<s>'` and
/// `: <reason>` when chrono refuses `s` as a date.
pub(crate) fn date_refusal(lead: &str, s: &[char]) -> (r: String)
    ensures
        r@ == refusal_text(lead@, s@, chrono_date_reason(s@)),
{
    let text = string_of(s);
    let reason = date_reason(text.as_str());
    refusal(lead, s, reason)
}

/// The message for a time chrono's reason explains: `<lead>'<s>'` and
/// `: <reason>` when chrono refuses `s` as a time.
pub(crate) fn time_refusal(lead: &str, s: &[char]) -> (r: String)
    ensures
        r@ == refusal_text(lead@, s@, chrono_time_reason(s@)),
{
    let text = string_of(s);
    let reason = time_reason(text.as_str());
    refusal(lead, s, reason)
}

fn refusal(lead: &str, s: &[char], reason: Option<String>) -> (r: String)
    ensures
        r@ == refusal_text(
            lead@,
            s@,
            match reason {
                Some(t) => Some(t@),
                None => None,
            },
        ),
{
    let mut v: Vec<char> = Vec::new();
    append_str(&mut v, lead);
    v.push('\'');
    append_chars(&mut v, s);
    v.push('\'');
    match reason {
        Some(t) => {
            v.push(':');
            v.push(' ');
            append_str(&mut v, t.as_str());
        },
        None => {},
    }
    proof {
        reveal_strlit("'");
        reveal_strlit(": ");
    }
    assert(v@ =~= refusal_text(
        lead@,
        s@,
        match reason {
            Some(t) => Some(t@),
            None => None,
        },
    ));
    string_of(&v)
}

// ---------------------------------------------------------------------------
// Text forms
// ---------------------------------------------------------------------------

/// A year as `%Y` writes it: four digits within 0..=9999, otherwise signed.
pub open spec fn year_text(y: int) -> Seq<char> {
    if 0 <= y <= 9999 {
        pad0(dec(y as nat), 4)
    } else if y < 0 {
        seq!['-'] + pad0(dec((-y) as nat), 4)
    } else {
        seq!['+'] + pad0(dec(y as nat), 4)
    }
}

/// Two zero-padded digits.
pub open spec fn two(n: int) -> Seq<char> {
    pad0(dec(n as nat), 2)
}

/// `%Y-%m-%d`.
pub open spec fn date_text(d: Date) -> Seq<char> {
    year_text(d.year as int) + seq!['-'] + two(d.month as int) + seq!['-'] + two(d.day as int)
}

/// `%H:%M`.
pub open spec fn time_text(t: Time) -> Seq<char> {
    two(t.hour as int) + seq![':'] + two(t.minute as int)
}

/// `%Y-%m-%dT%H:%M:%S`.
pub open spec fn stamp_text(dt: DateTime) -> Seq<char> {
    date_text(dt.date) + seq!['T'] + two((dt.second / 3600) as int) + seq![':'] + two(
        ((dt.second % 3600) / 60) as int,
    ) + seq![':'] + two((dt.second % 60) as int)
}

/// The year as `%Y` writes it.
pub fn year_chars(y: i32) -> (r: Vec<char>)
    ensures
        r@ == year_text(y as int),
{
    if 0 <= y && y <= 9999 {
        dec_chars_pad(y as u64, 4)
    } else if y < 0 {
        let mag: u64 = if y == i32::MIN {
            2147483648u64
        } else {
            (-y) as u64
        };
        let p = dec_chars_pad(mag, 4);
        let mut r = Vec::new();
        r.push('-');
        append_chars(&mut r, &p);
        assert(r@ =~= seq!['-'] + p@);
        r
    } else {
        let p = dec_chars_pad(y as u64, 4);
        let mut r = Vec::new();
        r.push('+');
        append_chars(&mut r, &p);
        assert(r@ =~= seq!['+'] + p@);
        r
    }
}

/// Two zero-padded digits.
pub fn two_chars(n: u32) -> (r: Vec<char>)
    ensures
        r@ == two(n as int),
{
    dec_chars_pad(n as u64, 2)
}

/// Appends `%Y-%m-%d` to `out`.
pub fn push_date(out: &mut Vec<char>, d: Date)
    ensures
        final(out)@ == old(out)@ + date_text(d),
{
    let y = year_chars(d.year);
    append_chars(out, &y);
    out.push('-');
    let m = two_chars(d.month);
    append_chars(out, &m);
    out.push('-');
    let dd = two_chars(d.day);
    append_chars(out, &dd);
    assert(final(out)@ =~= old(out)@ + date_text(d));
}

/// Appends `%H:%M` to `out`.
pub fn push_time(out: &mut Vec<char>, t: Time)
    ensures
        final(out)@ == old(out)@ + time_text(t),
{
    let h = two_chars(t.hour);
    append_chars(out, &h);
    out.push(':');
    let m = two_chars(t.minute);
    append_chars(out, &m);
    assert(final(out)@ =~= old(out)@ + time_text(t));
}

/// `%Y-%m-%d`.
pub fn date_string(d: Date) -> (r: String)
    ensures
        r@ == date_text(d),
{
    let mut v = Vec::new();
    push_date(&mut v, d);
    assert(v@ =~= date_text(d));
    string_of(&v)
}

/// `%H:%M`.
pub fn time_string(t: Time) -> (r: String)
    ensures
        r@ == time_text(t),
{
    let mut v = Vec::new();
    push_time(&mut v, t);
    assert(v@ =~= time_text(t));
    string_of(&v)
}

/// `%Y-%m-%dT%H:%M:%S`.
pub fn stamp_string(dt: DateTime) -> (r: String)
    ensures
        r@ == stamp_text(dt),
{
    let mut v = Vec::new();
    push_date(&mut v, dt.date);
    v.push('T');
    let h = two_chars(dt.second / 3600);
    append_chars(&mut v, &h);
    v.push(':');
    let m = two_chars((dt.second % 3600) / 60);
    append_chars(&mut v, &m);
    v.push(':');
    let s = two_chars(dt.second % 60);
    append_chars(&mut v, &s);
    assert(v@ =~= stamp_text(dt));
    string_of(&v)
}

/// The value of the digits of `s[lo..hi]`.
pub open spec fn field(s: Seq<char>, lo: int, hi: int) -> int {
    digits_value(s.subrange(lo, hi)) as int
}

/// Whether `s[lo..hi]` is all digits.
pub open spec fn digits_at(s: Seq<char>, lo: int, hi: int) -> bool {
    all_digits(s.subrange(lo, hi))
}

/// The date written `YYYY-MM-DD`, if `s` is one and the day exists.
pub open spec fn parse_date(s: Seq<char>) -> Option<Date> {
    if s.len() == 10 && digits_at(s, 0, 4) && s[4] == '-' && digits_at(s, 5, 7) && s[7] == '-'
        && digits_at(s, 8, 10) && valid_ymd(field(s, 0, 4), field(s, 5, 7), field(s, 8, 10)) {
        Some(Date { year: field(s, 0, 4) as i32, month: field(s, 5, 7) as u32, day: field(s, 8, 10) as u32 })
    } else {
        None
    }
}

/// The time written `HH:MM`, if `s` is one.
pub open spec fn parse_time(s: Seq<char>) -> Option<Time> {
    if s.len() == 5 && digits_at(s, 0, 2) && s[2] == ':' && digits_at(s, 3, 5) && field(s, 0, 2)
        < 24 && field(s, 3, 5) < 60 {
        Some(Time { hour: field(s, 0, 2) as u32, minute: field(s, 3, 5) as u32 })
    } else {
        None
    }
}

/// The value of the digits `s[lo..hi]`, if they are all digits.
fn field_exec(s: &[char], lo: usize, hi: usize) -> (r: Option<u32>)
    requires
        lo <= hi <= s.len(),
        hi - lo <= 4,
    ensures
        r is Some <==> digits_at(s@, lo as int, hi as int),
        r matches Some(v) ==> v == field(s@, lo as int, hi as int),
{
    let part = slice_of(s, lo, hi);
    match parse_digits(&part) {
        Some(v) => {
            proof {
                lemma_digits_value_bound(part@);
                lemma_pow10_small(part@.len());
                reveal_with_fuel(pow10, 5);
            }
            Some(v as u32)
        },
        None => None,
    }
}

/// Reads a run of at most four digits.
fn parse_digits(d: &[char]) -> (r: Option<u64>)
    requires
        d.len() <= 4,
    ensures
        r is Some <==> all_digits(d@),
        r matches Some(v) ==> v == digits_value(d@),
{
    let mut v: u64 = 0;
    let mut i: usize = 0;
    while i < d.len()
        invariant
            d.len() <= 4,
            i <= d.len(),
            all_digits(d@.take(i as int)),
            v == digits_value(d@.take(i as int)),
            v < pow10(i as nat),
        decreases d.len() - i,
    {
        let c = d[i];
        if !('0' <= c && c <= '9') {
            assert(!is_digit(d@[i as int]));
            return None;
        }
        assert(d@.take(i + 1).drop_last() =~= d@.take(i as int));
        assert(d@.take(i + 1).last() == c);
        assert(pow10((i + 1) as nat) == pow10(i as nat) * 10);
        assert(pow10(i as nat) <= 1000) by {
            lemma_pow10_small(i as nat);
        }
        v = v * 10 + ((c as u32) - ('0' as u32)) as u64;
        assert(all_digits(d@.take(i + 1))) by {
            assert forall|j: int| 0 <= j < i + 1 implies is_digit(#[trigger] d@.take(i + 1)[j]) by {
                if j < i {
                    assert(d@.take(i + 1)[j] == d@.take(i as int)[j]);
                }
            }
        }
        i += 1;
    }
    assert(d@.take(d.len() as int) =~= d@);
    Some(v)
}

/// Powers of ten.
pub open spec fn pow10(n: nat) -> nat
    decreases n,
{
    if n == 0 {
        1
    } else {
        pow10((n - 1) as nat) * 10
    }
}

proof fn lemma_pow10_small(n: nat)
    requires
        n <= 4,
    ensures
        n <= 3 ==> pow10(n) <= 1000,
        pow10(n) <= 10000,
{
    reveal_with_fuel(pow10, 5);
}

/// A run of digits is below the power of ten of its length.
pub proof fn lemma_digits_value_bound(s: Seq<char>)
    requires
        all_digits(s),
    ensures
        digits_value(s) < pow10(s.len()),
    decreases s.len(),
{
    if s.len() > 0 {
        assert(all_digits(s.drop_last())) by {
            assert forall|i: int| 0 <= i < s.drop_last().len() implies is_digit(
                #[trigger] s.drop_last()[i],
            ) by {
                assert(s.drop_last()[i] == s[i]);
            }
        }
        lemma_digits_value_bound(s.drop_last());
        assert(is_digit(s[s.len() - 1]));
    }
}

/// Parses `YYYY-MM-DD`.
pub fn parse_date_chars(s: &[char]) -> (r: Option<Date>)
    ensures
        r == parse_date(s@),
        r matches Some(d) ==> d.wf(),
{
    if s.len() != 10 || s[4] != '-' || s[7] != '-' {
        return None;
    }
    let y = field_exec(s, 0, 4);
    let m = field_exec(s, 5, 7);
    let d = field_exec(s, 8, 10);
    match (y, m, d) {
        (Some(y), Some(m), Some(d)) => {
            proof {
                lemma_digits_value_bound(s@.subrange(0, 4));
                assert(pow10(4) == 10000) by {
                    reveal_with_fuel(pow10, 5);
                }
            }
            if ymd_exists(y as i32, m, d) {
                Some(Date { year: y as i32, month: m, day: d })
            } else {
                None
            }
        },
        _ => None,
    }
}

/// Parses `HH:MM`.
pub fn parse_time_chars(s: &[char]) -> (r: Option<Time>)
    ensures
        r == parse_time(s@),
        r matches Some(t) ==> t.wf(),
{
    if s.len() != 5 || s[2] != ':' {
        return None;
    }
    let h = field_exec(s, 0, 2);
    let m = field_exec(s, 3, 5);
    match (h, m) {
        (Some(h), Some(m)) => {
            if h < 24 && m < 60 {
                Some(Time { hour: h, minute: m })
            } else {
                None
            }
        },
        _ => None,
    }
}

// ---------------------------------------------------------------------------
// Names of days and months
// ---------------------------------------------------------------------------


/// The abbreviated English name of a weekday counted from Monday.
pub open spec fn weekday_abbrev_text(w: int) -> Seq<char> {
    if w == 0 {
        "Mon"@
    } else if w == 1 {
        "Tue"@
    } else if w == 2 {
        "Wed"@
    } else if w == 3 {
        "Thu"@
    } else if w == 4 {
        "Fri"@
    } else if w == 5 {
        "Sat"@
    } else {
        "Sun"@
    }
}

/// The abbreviated English name of a month.
pub open spec fn month_abbrev_text(m: int) -> Seq<char> {
    if m == 1 {
        "Jan"@
    } else if m == 2 {
        "Feb"@
    } else if m == 3 {
        "Mar"@
    } else if m == 4 {
        "Apr"@
    } else if m == 5 {
        "May"@
    } else if m == 6 {
        "Jun"@
    } else if m == 7 {
        "Jul"@
    } else if m == 8 {
        "Aug"@
    } else if m == 9 {
        "Sep"@
    } else if m == 10 {
        "Oct"@
    } else if m == 11 {
        "Nov"@
    } else {
        "Dec"@
    }
}

/// The English name of a month.
pub open spec fn month_name_text(m: int) -> Seq<char> {
    if m == 1 {
        "January"@
    } else if m == 2 {
        "February"@
    } else if m == 3 {
        "March"@
    } else if m == 4 {
        "April"@
    } else if m == 5 {
        "May"@
    } else if m == 6 {
        "June"@
    } else if m == 7 {
        "July"@
    } else if m == 8 {
        "August"@
    } else if m == 9 {
        "September"@
    } else if m == 10 {
        "October"@
    } else if m == 11 {
        "November"@
    } else {
        "December"@
    }
}

/// `%a`: the abbreviated English name of a weekday counted from Monday.
pub fn weekday_abbrev(w: u32) -> (r: &'static str)
    requires
        w < 7,
    ensures
        r@ == weekday_abbrev_text(w as int),
{
    if w == 0 {
        "Mon"
    } else if w == 1 {
        "Tue"
    } else if w == 2 {
        "Wed"
    } else if w == 3 {
        "Thu"
    } else if w == 4 {
        "Fri"
    } else if w == 5 {
        "Sat"
    } else {
        "Sun"
    }
}

/// `%b`: the abbreviated English name of a month.
pub fn month_abbrev(m: u32) -> (r: &'static str)
    requires
        1 <= m <= 12,
    ensures
        r@ == month_abbrev_text(m as int),
{
    if m == 1 {
        "Jan"
    } else if m == 2 {
        "Feb"
    } else if m == 3 {
        "Mar"
    } else if m == 4 {
        "Apr"
    } else if m == 5 {
        "May"
    } else if m == 6 {
        "Jun"
    } else if m == 7 {
        "Jul"
    } else if m == 8 {
        "Aug"
    } else if m == 9 {
        "Sep"
    } else if m == 10 {
        "Oct"
    } else if m == 11 {
        "Nov"
    } else {
        "Dec"
    }
}

/// `%B`: the English name of a month.
pub fn month_name(m: u32) -> (r: &'static str)
    requires
        1 <= m <= 12,
    ensures
        r@ == month_name_text(m as int),
{
    if m == 1 {
        "January"
    } else if m == 2 {
        "February"
    } else if m == 3 {
        "March"
    } else if m == 4 {
        "April"
    } else if m == 5 {
        "May"
    } else if m == 6 {
        "June"
    } else if m == 7 {
        "July"
    } else if m == 8 {
        "August"
    } else if m == 9 {
        "September"
    } else if m == 10 {
        "October"
    } else if m == 11 {
        "November"
    } else {
        "December"
    }
}

} // verus!
