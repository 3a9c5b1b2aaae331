//! The trailing year that the calendar shows, and the week columns of its
//! dates.
use crate::date::{
    days_in_month, days_since, first_day_of_week, lemma_day_in_range, lemma_day_number_ordered,
    lemma_days_before_next_year, lemma_month_first_monotone, lemma_month_first_of,
    lemma_month_first_step, lemma_next_day_number, lemma_one_year_before_span, month_first,
    one_year_ago, one_year_before, pred, succ, with_day, CalDate, MIN_YEAR,
};
use vstd::arithmetic::div_mod::{
    lemma_div_is_ordered, lemma_fundamental_div_mod, lemma_mod_bound, lemma_mod_multiples_basic,
};
use vstd::prelude::*;

verus! {

/// The year leading up to `end`: from `start` (the day after the same date a
/// year earlier) to `end`, both included. Weeks are counted from
/// `initial_sunday`, the Sunday on or before `start`.
#[derive(Clone, Copy, Debug)]
pub struct Year {
    pub start: CalDate,
    pub end: CalDate,
    pub initial_sunday: CalDate,
}

impl Year {
    pub open spec fn wf(self) -> bool {
        &&& self.end.wf()
        &&& MIN_YEAR + 2 <= self.end.year
        &&& self.start == one_year_before(self.end).next()
        &&& self.initial_sunday.wf()
        &&& self.initial_sunday.day_number() == self.start.day_number() - self.start.weekday()
    }

    /// The week column of a day number, counted from the initial Sunday.
    pub open spec fn week_of_day(self, n: int) -> int {
        (n - self.initial_sunday.day_number()) / 7
    }

    /// How many week columns, partial or full, the year spans.
    pub open spec fn week_count(self) -> int {
        self.week_of_day(self.end.day_number()) + 1
    }

    /// The first day of the `i`-th month in chronological order: the month
    /// after `end`'s month a year earlier comes first, `end`'s own month last.
    pub open spec fn month_start_date(self, i: int) -> CalDate {
        month_first(self.end.month_index() - 11 + i)
    }

    /// The week column in which the `i`-th month in chronological order
    /// begins.
    pub open spec fn month_start_week(self, i: int) -> int {
        self.week_of_day(self.month_start_date(i).day_number())
    }

    /// The first fully contained month, 0 for January: the month after `end`'s.
    pub open spec fn first_full_month(self) -> int {
        self.end.month as int % 12
    }

    /// The year that ends on `today`.
    pub fn from_today(today: CalDate) -> (r: Year)
        requires
            today.wf(),
            MIN_YEAR + 2 <= today.year,
        ensures
            r.wf(),
            r.end == today,
            r.start == one_year_before(today).next(),
    {
        let end = today;
        let a = one_year_ago(end);
        proof {
            lemma_one_year_before_span(end);
        }
        let start = succ(a).unwrap();
        proof {
            lemma_next_day_number(a);
            let lo = CalDate { year: (MIN_YEAR + 1) as i32, month: 1, day: 1 };
            if start != lo {
                lemma_day_number_ordered(lo, start);
            }
            lemma_days_before_next_year(MIN_YEAR as int);
            lemma_day_in_range(start);
            lemma_mod_bound(start.day_number(), 7);
        }
        let initial_sunday = first_day_of_week(start);
        Year { start, end, initial_sunday }
    }

    /// What week a date falls in, counted from the initial Sunday, from 0.
    pub fn week(&self, date: CalDate) -> (r: usize)
        requires
            self.wf(),
            date.wf(),
            self.initial_sunday.day_number() <= date.day_number(),
        ensures
            r == self.week_of_day(date.day_number()),
    {
        proof {
            lemma_day_in_range(date);
            lemma_day_in_range(self.initial_sunday);
        }
        let days = days_since(date, self.initial_sunday);
        (days / 7) as usize
    }

    /// How many weeks (aligned on Sunday), partial or full, the year spans.
    pub fn num_weeks(&self) -> (r: usize)
        requires
            self.wf(),
        ensures
            r == self.week_count(),
            53 <= r <= 54,
    {
        proof {
            lemma_window_shape(*self);
        }
        self.week(self.end) + 1
    }

    /// The week in which each month begins, months in chronological order.
    pub fn month_starts(&self) -> (r: [usize; 12])
        requires
            self.wf(),
        ensures
            forall|i: int| 0 <= i < 12 ==> r[i] == self.month_start_week(i),
    {
        let mut start_weeks: [usize; 12] = [0usize; 12];
        let mut date = self.end;
        let mut k: usize = 0;
        while k < 12
            invariant
                self.wf(),
                k <= 12,
                date.wf(),
                date.month_index() == self.end.month_index() - k,
                forall|j: int| 12 - k <= j < 12 ==> start_weeks[j] == self.month_start_week(j),
            decreases 12 - k,
        {
            let i = 11 - k;
            proof {
                lemma_month_first_of(date);
                lemma_month_starts(*self, i as int);
            }
            date = with_day(date, 1).unwrap();
            start_weeks[i] = self.week(date);
            proof {
                lemma_month_first_step(date.month_index() - 1);
                lemma_month_first_of(date);
            }
            let ghost first = date;
            date = pred(date).unwrap();
            proof {
                assert(date.month_index() == first.month_index() - 1);
            }
            k = k + 1;
        }
        start_weeks
    }

    /// The first full month of the year, 0 for January.
    pub fn first_full_month0(&self) -> (r: usize)
        requires
            self.wf(),
        ensures
            r == self.first_full_month(),
    {
        ((self.end.month - 1) as usize + 1) % 12
    }
}

/// The initial Sunday is a Sunday on or before `start`; the year spans 365
/// or 366 days and 53 or 54 week columns.
pub proof fn lemma_window_shape(y: Year)
    requires
        y.wf(),
    ensures
        y.start.wf(),
        y.initial_sunday.day_number() <= y.start.day_number() <= y.end.day_number(),
        364 <= y.end.day_number() - y.start.day_number() <= 365,
        y.initial_sunday.weekday() == 0,
        53 <= y.week_count() <= 54,
{
    let a = one_year_before(y.end);
    lemma_one_year_before_span(y.end);
    lemma_next_day_number(a);
    let n = y.start.day_number();
    lemma_fundamental_div_mod(n, 7);
    lemma_mod_bound(n, 7);
    let s = y.initial_sunday.day_number();
    assert(s == (n / 7) * 7);
    let e = y.end.day_number() - s;
    lemma_fundamental_div_mod(e, 7);
    lemma_mod_bound(e, 7);
    assert(y.initial_sunday.weekday() == 0) by {
        lemma_mod_multiples_basic(n / 7, 7);
    }
}

/// Every date from `start` to `end` lies in one of the year's week columns.
pub proof fn lemma_week_in_range(y: Year, d: CalDate)
    requires
        y.wf(),
        d.wf(),
        y.start.day_number() <= d.day_number() <= y.end.day_number(),
    ensures
        0 <= y.week_of_day(d.day_number()) < y.week_count(),
{
    lemma_window_shape(y);
    let s = y.initial_sunday.day_number();
    lemma_div_is_ordered(0, d.day_number() - s, 7);
    lemma_div_is_ordered(d.day_number() - s, y.end.day_number() - s, 7);
}

/// The `i`-th month start is a valid date of the year, and the next one is
/// at least four weeks later.
pub proof fn lemma_month_starts(y: Year, i: int)
    requires
        y.wf(),
        0 <= i < 12,
    ensures
        y.month_start_date(i).wf(),
        y.start.day_number() <= y.month_start_date(i).day_number() <= y.end.day_number(),
        i < 11 ==> y.month_start_date(i + 1).day_number() >= y.month_start_date(i).day_number()
            + 28,
        i < 11 ==> y.month_start_week(i + 1) >= y.month_start_week(i) + 4,
        0 <= y.month_start_week(i) < y.week_count(),
{
    let e = y.end;
    let a = one_year_before(e);
    lemma_one_year_before_span(e);
    lemma_next_day_number(a);
    lemma_month_first_of(a);
    lemma_month_first_of(e);
    let mi = e.month_index();
    assert(a.month_index() == mi - 12);
    lemma_month_first_step(mi - 12);
    assert(a.day_number() <= month_first(mi - 12).day_number() + days_in_month(
        a.year as int,
        a.month as int,
    ) - 1);
    lemma_month_first_monotone(mi - 11, mi - 11 + i);
    lemma_month_first_monotone(mi - 11 + i, mi);
    assert(month_first(mi).day_number() <= e.day_number());
    if i < 11 {
        lemma_month_first_step(mi - 11 + i);
        let s = y.initial_sunday.day_number();
        let x = y.month_start_date(i).day_number() - s;
        let z = y.month_start_date(i + 1).day_number() - s;
        lemma_div_is_ordered(x + 28, z, 7);
        lemma_fundamental_div_mod(x, 7);
        lemma_fundamental_div_mod(x + 28, 7);
        lemma_mod_bound(x, 7);
        lemma_mod_bound(x + 28, 7);
    }
    lemma_week_in_range(y, y.month_start_date(i));
}

/// The month starts come in chronological order, at least four weeks apart,
/// and their months run from the first full month round to `end`'s month.
pub proof fn lemma_month_starts_chronological(y: Year)
    requires
        y.wf(),
    ensures
        forall|i: int, j: int| 0 <= i <= j < 12 ==> y.month_start_week(i) <= y.month_start_week(j),
        forall|i: int|
            0 <= i < 11 ==> #[trigger] y.month_start_week(i) + 4 <= y.month_start_week(i + 1),
        forall|i: int|
            0 <= i < 12 ==> y.month_start_date(i).month - 1 == (y.first_full_month() + i) % 12,
        y.month_start_date(11).month == y.end.month,
{
    assert forall|i: int| 0 <= i < 11 implies #[trigger] y.month_start_week(i) + 4 <= y.month_start_week(
        i + 1,
    ) by {
        lemma_month_starts(y, i);
    }
    assert forall|i: int, j: int| 0 <= i <= j < 12 implies y.month_start_week(i)
        <= y.month_start_week(j) by {
        lemma_month_start_weeks_ordered(y, i, j);
    }
    assert forall|i: int| 0 <= i < 12 implies y.month_start_date(i).month - 1 == (
    y.first_full_month() + i) % 12 by {
        let mi = y.end.month_index() - 11 + i;
        lemma_fundamental_div_mod(mi, 12);
        lemma_mod_bound(mi, 12);
        lemma_fundamental_div_mod(y.first_full_month() + i, 12);
        lemma_mod_bound(y.first_full_month() + i, 12);
    }
    lemma_month_first_of(y.end);
}

proof fn lemma_month_start_weeks_ordered(y: Year, i: int, j: int)
    requires
        y.wf(),
        0 <= i <= j < 12,
    ensures
        y.month_start_week(i) <= y.month_start_week(j),
    decreases j - i,
{
    if i < j {
        lemma_month_starts(y, i);
        lemma_month_start_weeks_ordered(y, i + 1, j);
    }
}

} // verus!
