//! Calendar dates of the proleptic Gregorian calendar, held as year, month and
//! day, with their day numbers and weekdays. The date arithmetic itself is
//! done by chrono; its contracts are stated over the model below.
use chrono::Datelike;
use vstd::arithmetic::div_mod::{lemma_fundamental_div_mod, lemma_mod_bound, lemma_mod_multiples_basic};
use vstd::prelude::*;

verus! {

/// The earliest year that chrono's `NaiveDate` represents.
pub const MIN_YEAR: i32 = -262143;

/// The latest year that chrono's `NaiveDate` represents.
pub const MAX_YEAR: i32 = 262142;

/// The day number of 1970-01-01, counting 0001-01-01 as day 1.
pub const UNIX_EPOCH_DAY: i64 = 719163;

/// A calendar date: year, month (1 to 12) and day of the month (from 1).
#[derive(Clone, Copy, Debug, PartialEq, Eq, Structural)]
pub struct CalDate {
    pub year: i32,
    pub month: u32,
    pub day: u32,
}

pub open spec fn is_leap_year(y: int) -> bool {
    y % 4 == 0 && (y % 100 != 0 || y % 400 == 0)
}

pub open spec fn days_in_month(y: int, m: int) -> int {
    if m == 2 {
        if is_leap_year(y) { 29 } else { 28 }
    } else if m == 4 || m == 6 || m == 9 || m == 11 {
        30
    } else {
        31
    }
}

/// Whether year, month and day name a date that chrono can represent.
pub open spec fn valid_ymd(y: int, m: int, d: int) -> bool {
    MIN_YEAR <= y <= MAX_YEAR && 1 <= m <= 12 && 1 <= d <= days_in_month(y, m)
}

/// Days in the years before year `y`, counted from year 1.
pub open spec fn days_before_year(y: int) -> int {
    365 * (y - 1) + (y - 1) / 4 - (y - 1) / 100 + (y - 1) / 400
}

/// Days in the months of year `y` before month `m`.
pub open spec fn days_before_month(y: int, m: int) -> int {
    let common: int = if m <= 1 { 0 } else if m == 2 { 31 } else if m == 3 { 59 } else if m == 4 {
        90
    } else if m == 5 { 120 } else if m == 6 { 151 } else if m == 7 { 181 } else if m == 8 {
        212
    } else if m == 9 { 243 } else if m == 10 { 273 } else if m == 11 { 304 } else if m == 12 {
        334
    } else { 365 };
    if m > 2 && is_leap_year(y) { common + 1 } else { common }
}

/// Day number of a year, month and day: 0001-01-01 is day 1.
pub open spec fn ymd_day_number(y: int, m: int, d: int) -> int {
    days_before_year(y) + days_before_month(y, m) + d
}

/// Day of the week of a day number, 0 for Sunday to 6 for Saturday
/// (0001-01-01 was a Monday).
pub open spec fn weekday_of_day(n: int) -> int {
    n % 7
}

/// The day number of the date that a Unix timestamp (UTC) falls on.
pub open spec fn timestamp_day(secs: int) -> int {
    UNIX_EPOCH_DAY + secs / 86400
}

/// Whether a day number lies in the range of dates that chrono represents.
pub open spec fn day_in_range(n: int) -> bool {
    ymd_day_number(MIN_YEAR as int, 1, 1) <= n <= ymd_day_number(MAX_YEAR as int, 12, 31)
}

/// The first day of a month, given as a count of months `y * 12 + (m - 1)`.
pub open spec fn month_first(month_index: int) -> CalDate {
    CalDate {
        year: (month_index / 12) as i32,
        month: (month_index % 12 + 1) as u32,
        day: 1,
    }
}

impl CalDate {
    pub open spec fn wf(self) -> bool {
        valid_ymd(self.year as int, self.month as int, self.day as int)
    }

    /// The date's day number: 0001-01-01 is day 1.
    pub open spec fn day_number(self) -> int {
        ymd_day_number(self.year as int, self.month as int, self.day as int)
    }

    /// Sunday = 0, ..., Saturday = 6.
    pub open spec fn weekday(self) -> int {
        weekday_of_day(self.day_number())
    }

    /// The count of months `year * 12 + (month - 1)`.
    pub open spec fn month_index(self) -> int {
        self.year as int * 12 + self.month as int - 1
    }

    pub open spec fn is_first_date(self) -> bool {
        self.year == MIN_YEAR && self.month == 1 && self.day == 1
    }

    pub open spec fn is_last_date(self) -> bool {
        self.year == MAX_YEAR && self.month == 12 && self.day == 31
    }

    /// The calendar date that follows this one.
    pub open spec fn next(self) -> CalDate {
        if (self.day as int) < days_in_month(self.year as int, self.month as int) {
            CalDate { day: (self.day + 1) as u32, ..self }
        } else if self.month < 12 {
            CalDate { year: self.year, month: (self.month + 1) as u32, day: 1 }
        } else {
            CalDate { year: (self.year + 1) as i32, month: 1, day: 1 }
        }
    }

    /// The calendar date that precedes this one.
    pub open spec fn prev(self) -> CalDate {
        if self.day > 1 {
            CalDate { day: (self.day - 1) as u32, ..self }
        } else if self.month > 1 {
            CalDate {
                year: self.year,
                month: (self.month - 1) as u32,
                day: days_in_month(self.year as int, self.month - 1) as u32,
            }
        } else {
            CalDate { year: (self.year - 1) as i32, month: 12, day: 31 }
        }
    }
}

// ---------------------------------------------------------------------------
// Facts about the day count.

proof fn lemma_div_step(x: int, c: int)
    requires
        c == 4 || c == 100 || c == 400,
    ensures
        x / c - (x - 1) / c == if x % c == 0 { 1int } else { 0int },
{
    lemma_fundamental_div_mod(x, c);
    lemma_fundamental_div_mod(x - 1, c);
    lemma_mod_bound(x, c);
    lemma_mod_bound(x - 1, c);
    if c == 4 {
        assert(x / 4 - (x - 1) / 4 == if x % 4 == 0 { 1int } else { 0int });
    } else if c == 100 {
        assert(x / 100 - (x - 1) / 100 == if x % 100 == 0 { 1int } else { 0int });
    } else {
        assert(x / 400 - (x - 1) / 400 == if x % 400 == 0 { 1int } else { 0int });
    }
}

/// A year has 366 days if it is a leap year, else 365.
pub proof fn lemma_days_before_next_year(y: int)
    ensures
        days_before_year(y + 1) == days_before_year(y) + if is_leap_year(y) { 366int } else { 365int },
{
    lemma_div_step(y, 4);
    lemma_div_step(y, 100);
    lemma_div_step(y, 400);
    let a = y / 4 - (y - 1) / 4;
    let b = y / 100 - (y - 1) / 100;
    let c = y / 400 - (y - 1) / 400;
    assert(days_before_year(y + 1) - days_before_year(y) == 365 + a - b + c);
}

pub proof fn lemma_month_days_add_up(y: int, m: int)
    requires
        1 <= m <= 12,
    ensures
        days_before_month(y, m) + days_in_month(y, m) == days_before_month(y, m + 1),
        days_before_month(y, 13) == days_before_year(y + 1) - days_before_year(y),
{
    lemma_days_before_next_year(y);
}

proof fn lemma_days_before_year_monotone(y1: int, y2: int)
    requires
        y1 <= y2,
    ensures
        days_before_year(y1) <= days_before_year(y2),
    decreases y2 - y1,
{
    if y1 < y2 {
        lemma_days_before_next_year(y1);
        lemma_days_before_year_monotone(y1 + 1, y2);
    }
}

/// The date after a valid date is valid, and its day number is one more.
pub proof fn lemma_next_day_number(d: CalDate)
    requires
        d.wf(),
        !d.is_last_date(),
    ensures
        d.next().wf(),
        d.next().day_number() == d.day_number() + 1,
{
    lemma_month_days_add_up(d.year as int, d.month as int);
}

/// Day numbers follow the order of year, month and day.
pub proof fn lemma_day_number_ordered(a: CalDate, b: CalDate)
    requires
        a.wf(),
        b.wf(),
        a.year < b.year || (a.year == b.year && a.month < b.month) || (a.year == b.year
            && a.month == b.month && a.day < b.day),
    ensures
        a.day_number() < b.day_number(),
{
    let (ay, am) = (a.year as int, a.month as int);
    let (by, bm) = (b.year as int, b.month as int);
    lemma_month_days_add_up(ay, am);
    if ay < by {
        lemma_days_before_next_year(ay);
        lemma_days_before_year_monotone(ay + 1, by);
    }
}

/// Two valid dates with the same day number are the same date.
pub proof fn lemma_day_number_injective(a: CalDate, b: CalDate)
    requires
        a.wf(),
        b.wf(),
        a.day_number() == b.day_number(),
    ensures
        a == b,
{
    if a.year < b.year || (a.year == b.year && a.month < b.month) || (a.year == b.year
        && a.month == b.month && a.day < b.day) {
        lemma_day_number_ordered(a, b);
    } else if b.year < a.year || (a.year == b.year && b.month < a.month) || (a.year == b.year
        && a.month == b.month && b.day < a.day) {
        lemma_day_number_ordered(b, a);
    }
}

// ---------------------------------------------------------------------------
// chrono's date arithmetic.

/// Relies on chrono's `Datelike::with_year` for `NaiveDate`: the same month
/// and day in another year, or `None` where that date does not exist or the
/// year is out of range.
#[verifier::external_body]
fn with_year(d: CalDate, year: i32) -> (r: Option<CalDate>)
    requires
        d.wf(),
    ensures
        r == (if valid_ymd(year as int, d.month as int, d.day as int) {
            Some(CalDate { year, ..d })
        } else {
            None
        }),
{
    let n = chrono::NaiveDate::from_ymd_opt(d.year, d.month, d.day).unwrap();
    n.with_year(year).map(|x| CalDate { year: x.year(), month: x.month(), day: x.day() })
}

/// Relies on chrono's `Datelike::with_day` for `NaiveDate`: the same year and
/// month with another day, or `None` where that date does not exist.
#[verifier::external_body]
pub(crate) fn with_day(d: CalDate, day: u32) -> (r: Option<CalDate>)
    requires
        d.wf(),
    ensures
        r == (if valid_ymd(d.year as int, d.month as int, day as int) {
            Some(CalDate { day, ..d })
        } else {
            None
        }),
{
    let n = chrono::NaiveDate::from_ymd_opt(d.year, d.month, d.day).unwrap();
    n.with_day(day).map(|x| CalDate { year: x.year(), month: x.month(), day: x.day() })
}

/// Relies on chrono's `NaiveDate::succ_opt`: the next calendar date, `None`
/// after the last representable date.
#[verifier::external_body]
pub(crate) fn succ(d: CalDate) -> (r: Option<CalDate>)
    requires
        d.wf(),
    ensures
        r == (if d.is_last_date() { None } else { Some(d.next()) }),
{
    let n = chrono::NaiveDate::from_ymd_opt(d.year, d.month, d.day).unwrap();
    n.succ_opt().map(|x| CalDate { year: x.year(), month: x.month(), day: x.day() })
}

/// Relies on chrono's `NaiveDate::pred_opt`: the previous calendar date,
/// `None` before the first representable date.
#[verifier::external_body]
pub(crate) fn pred(d: CalDate) -> (r: Option<CalDate>)
    requires
        d.wf(),
    ensures
        r == (if d.is_first_date() { None } else { Some(d.prev()) }),
{
    let n = chrono::NaiveDate::from_ymd_opt(d.year, d.month, d.day).unwrap();
    n.pred_opt().map(|x| CalDate { year: x.year(), month: x.month(), day: x.day() })
}

/// Relies on chrono's `NaiveDate::checked_sub_signed` with a whole number of
/// days: the date `n` days earlier, `None` where it is out of range.
#[verifier::external_body]
fn sub_days(d: CalDate, n: i64) -> (r: Option<CalDate>)
    requires
        d.wf(),
        0 <= n <= 366,
    ensures
        r.is_some() == day_in_range(d.day_number() - n),
        r matches Some(x) ==> x.wf() && x.day_number() == d.day_number() - n,
{
    let x = chrono::NaiveDate::from_ymd_opt(d.year, d.month, d.day).unwrap();
    x.checked_sub_signed(chrono::TimeDelta::days(n)).map(
        |x| CalDate { year: x.year(), month: x.month(), day: x.day() },
    )
}

/// Relies on chrono's `NaiveDate::signed_duration_since` and
/// `TimeDelta::num_days`: the signed count of days from `b` to `a`.
#[verifier::external_body]
pub(crate) fn days_since(a: CalDate, b: CalDate) -> (r: i64)
    requires
        a.wf(),
        b.wf(),
    ensures
        r == a.day_number() - b.day_number(),
{
    let x = chrono::NaiveDate::from_ymd_opt(a.year, a.month, a.day).unwrap();
    let y = chrono::NaiveDate::from_ymd_opt(b.year, b.month, b.day).unwrap();
    x.signed_duration_since(y).num_days()
}

/// Relies on chrono's `Datelike::weekday` and `Weekday::num_days_from_sunday`:
/// Sunday is 0, Saturday 6.
#[verifier::external_body]
pub(crate) fn num_days_from_sunday(d: CalDate) -> (r: u32)
    requires
        d.wf(),
    ensures
        r == d.weekday(),
{
    let x = chrono::NaiveDate::from_ymd_opt(d.year, d.month, d.day).unwrap();
    x.weekday().num_days_from_sunday()
}

/// Relies on chrono's `DateTime::from_timestamp` (UTC) and
/// `DateTime::date_naive`: the date of a Unix timestamp, `None` where it lies
/// outside the range of dates.
#[verifier::external_body]
pub(crate) fn timestamp_date(secs: i64) -> (r: Option<CalDate>)
    ensures
        r.is_some() == day_in_range(timestamp_day(secs as int)),
        r matches Some(x) ==> x.wf() && x.day_number() == timestamp_day(secs as int),
{
    chrono::DateTime::from_timestamp(secs, 0).map(|t| t.date_naive()).map(
        |x| CalDate { year: x.year(), month: x.month(), day: x.day() },
    )
}

// ---------------------------------------------------------------------------
// Year and week arithmetic.

/// The same month and day one year earlier; February 29 becomes February 28
/// where the earlier year has no leap day.
pub open spec fn one_year_before(d: CalDate) -> CalDate {
    if valid_ymd(d.year - 1, d.month as int, d.day as int) {
        CalDate { year: (d.year - 1) as i32, ..d }
    } else {
        CalDate { year: (d.year - 1) as i32, month: 2, day: 28 }
    }
}

/// Rewinds a date by one calendar year, clamping February 29 to February 28.
pub fn one_year_ago(date: CalDate) -> (r: CalDate)
    requires
        date.wf(),
        date.year > MIN_YEAR,
    ensures
        r == one_year_before(date),
        r.wf(),
{
    match with_year(date, date.year - 1) {
        Some(d) => d,
        None => CalDate { year: date.year - 1, month: 2, day: 28 },
    }
}

/// The Sunday on or before a date: its day number less its weekday.
pub fn first_day_of_week(date: CalDate) -> (r: CalDate)
    requires
        date.wf(),
        day_in_range(date.day_number() - date.weekday()),
    ensures
        r.wf(),
        r.day_number() == date.day_number() - date.weekday(),
        r.day_number() <= date.day_number(),
        r.weekday() == 0,
        date.weekday() == 0 ==> r == date,
{
    let days_since_sunday = num_days_from_sunday(date);
    let r = sub_days(date, days_since_sunday as i64).unwrap();
    proof {
        let n = date.day_number();
        lemma_fundamental_div_mod(n, 7);
        lemma_mod_bound(n, 7);
        lemma_mod_multiples_basic(n / 7, 7);
        assert(n - n % 7 == (n / 7) * 7);
        if date.weekday() == 0 {
            lemma_day_number_injective(r, date);
        }
    }
    r
}

/// Outside February 29, a year earlier keeps month and day and lowers the
/// year by one.
pub proof fn lemma_one_year_ago_keeps_month_and_day(d: CalDate)
    requires
        d.wf(),
        d.year > MIN_YEAR,
        !(d.month == 2 && d.day == 29),
    ensures
        one_year_before(d) == (CalDate { year: (d.year - 1) as i32, month: d.month, day: d.day }),
{
}

/// February 29 of a leap year goes to February 28 of the year before.
pub proof fn lemma_one_year_ago_leap_day(d: CalDate)
    requires
        d.wf(),
        d.year > MIN_YEAR,
        d.month == 2,
        d.day == 29,
    ensures
        is_leap_year(d.year as int),
        one_year_before(d) == (CalDate { year: (d.year - 1) as i32, month: 2, day: 28 }),
{
}

/// A date and the date one year before it are 365 or 366 days apart.
pub proof fn lemma_one_year_before_span(d: CalDate)
    requires
        d.wf(),
        d.year > MIN_YEAR,
    ensures
        one_year_before(d).wf(),
        365 <= d.day_number() - one_year_before(d).day_number() <= 366,
{
    lemma_days_before_next_year(d.year - 1);
}

/// The first days of consecutive months are as many days apart as the
/// earlier month is long, at least 28.
pub proof fn lemma_month_first_step(mi: int)
    requires
        MIN_YEAR * 12 <= mi,
        mi + 1 <= MAX_YEAR * 12 + 11,
    ensures
        month_first(mi).wf(),
        month_first(mi + 1).wf(),
        month_first(mi + 1).day_number() == month_first(mi).day_number() + days_in_month(
            month_first(mi).year as int,
            month_first(mi).month as int,
        ),
        month_first(mi + 1).day_number() >= month_first(mi).day_number() + 28,
{
    lemma_fundamental_div_mod(mi, 12);
    lemma_fundamental_div_mod(mi + 1, 12);
    lemma_mod_bound(mi, 12);
    lemma_mod_bound(mi + 1, 12);
    let (y, r) = (mi / 12, mi % 12);
    if r < 11 {
        assert((mi + 1) / 12 == y && (mi + 1) % 12 == r + 1);
    } else {
        assert((mi + 1) / 12 == y + 1 && (mi + 1) % 12 == 0);
    }
    lemma_month_days_add_up(y, r + 1);
}

/// First days of months that lie further apart are further apart in days.
pub proof fn lemma_month_first_monotone(a: int, b: int)
    requires
        MIN_YEAR * 12 <= a <= b,
        b <= MAX_YEAR * 12 + 11,
    ensures
        month_first(a).wf(),
        month_first(b).wf(),
        month_first(a).day_number() + 28 * (b - a) <= month_first(b).day_number(),
    decreases b - a,
{
    if a < b {
        lemma_month_first_step(a);
        lemma_month_first_monotone(a + 1, b);
    } else {
        lemma_fundamental_div_mod(a, 12);
        lemma_mod_bound(a, 12);
    }
}

/// Every valid date lies between the first and the last representable date.
pub proof fn lemma_day_in_range(d: CalDate)
    requires
        d.wf(),
    ensures
        day_in_range(d.day_number()),
{
    let lo = CalDate { year: MIN_YEAR, month: 1, day: 1 };
    let hi = CalDate { year: MAX_YEAR, month: 12, day: 31 };
    if d != lo {
        lemma_day_number_ordered(lo, d);
    }
    if d != hi {
        lemma_day_number_ordered(d, hi);
    }
}

/// The month's first day of a valid date's month index.
pub proof fn lemma_month_first_of(d: CalDate)
    requires
        d.wf(),
    ensures
        month_first(d.month_index()) == (CalDate { day: 1, ..d }),
        month_first(d.month_index()).wf(),
{
    lemma_fundamental_div_mod(d.month_index(), 12);
    lemma_mod_bound(d.month_index(), 12);
}

} // verus!
