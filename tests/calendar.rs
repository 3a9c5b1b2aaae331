use chrono::Datelike;
use git_calendar::calendar::Year;
use git_calendar::date::{first_day_of_week, one_year_ago, CalDate};
use git_calendar::labels::{format_month_labels, format_months, month0_name};

fn ymd(year: i32, month: u32, day: u32) -> CalDate {
    CalDate { year, month, day }
}

fn from_chrono(d: chrono::NaiveDate) -> CalDate {
    ymd(d.year(), d.month(), d.day())
}

#[test]
fn one_year_ago_keeps_month_and_day() {
    assert_eq!(one_year_ago(ymd(2019, 3, 14)), ymd(2018, 3, 14));
    assert_eq!(one_year_ago(ymd(2018, 12, 31)), ymd(2017, 12, 31));
    assert_eq!(one_year_ago(ymd(2021, 2, 28)), ymd(2020, 2, 28));
    assert_eq!(one_year_ago(ymd(2024, 1, 1)), ymd(2023, 1, 1));
}

#[test]
fn one_year_ago_leap_day() {
    assert_eq!(one_year_ago(ymd(2020, 2, 29)), ymd(2019, 2, 28));
    assert_eq!(one_year_ago(ymd(2000, 2, 29)), ymd(1999, 2, 28));
}

#[test]
fn first_day_of_week_goes_back_to_sunday() {
    assert_eq!(first_day_of_week(ymd(2023, 1, 4)), ymd(2023, 1, 1));
    assert_eq!(first_day_of_week(ymd(2023, 1, 7)), ymd(2023, 1, 1));
    assert_eq!(first_day_of_week(ymd(2023, 3, 2)), ymd(2023, 2, 26));
}

#[test]
fn first_day_of_week_keeps_sunday() {
    assert_eq!(first_day_of_week(ymd(2023, 1, 1)), ymd(2023, 1, 1));
    assert_eq!(first_day_of_week(ymd(2024, 3, 3)), ymd(2024, 3, 3));
}

#[test]
fn year_window_ending_new_year() {
    let year = Year::from_today(ymd(2024, 1, 1));
    assert_eq!(year.start, ymd(2023, 1, 2));
    assert_eq!(year.end, ymd(2024, 1, 1));
    assert_eq!(year.initial_sunday, ymd(2023, 1, 1));
    assert_eq!(year.num_weeks(), 53);
    assert_eq!(year.week(ymd(2023, 1, 1)), 0);
    assert_eq!(year.week(ymd(2023, 1, 8)), 1);
    assert_eq!(year.week(ymd(2023, 12, 25)), 51);
    assert_eq!(year.week(ymd(2024, 1, 1)), 52);
    assert_eq!(year.first_full_month0(), 1);
}

#[test]
fn year_window_on_leap_day() {
    let year = Year::from_today(ymd(2024, 2, 29));
    assert_eq!(year.start, ymd(2023, 3, 1));
    assert_eq!(year.initial_sunday, ymd(2023, 2, 26));
    assert_eq!(year.num_weeks(), 53);
}

#[test]
fn num_weeks_over_a_year_of_todays() {
    let mut day = chrono::NaiveDate::from_ymd_opt(2023, 1, 1).unwrap();
    let mut seen_54 = false;
    for _ in 0..(366 * 4) {
        let year = Year::from_today(from_chrono(day));
        let n = year.num_weeks();
        assert!((52..=54).contains(&n), "{} weeks for {:?}", n, day);
        seen_54 |= n == 54;
        day = day.succ_opt().unwrap();
    }
    assert!(seen_54);
}

#[test]
fn weeks_of_window_dates_are_in_range() {
    let year = Year::from_today(ymd(2023, 7, 15));
    let n = year.num_weeks();
    let mut day = chrono::NaiveDate::from_ymd_opt(2022, 7, 16).unwrap();
    let end = chrono::NaiveDate::from_ymd_opt(2023, 7, 15).unwrap();
    while day <= end {
        assert!(year.week(from_chrono(day)) < n);
        day = day.succ_opt().unwrap();
    }
}

#[test]
fn month_starts_in_chronological_order() {
    let year = Year::from_today(ymd(2024, 1, 1));
    let weeks = year.month_starts();
    assert_eq!(weeks[0], 4); // 2023-02-01
    assert_eq!(weeks[11], 52); // 2024-01-01
    for i in 0..11 {
        assert!(weeks[i] + 4 <= weeks[i + 1]);
    }
    assert_eq!(year.first_full_month0(), 1);
}

#[test]
fn month_starts_mid_year() {
    let year = Year::from_today(ymd(2023, 7, 15));
    // initial Sunday 2022-07-10; months from August 2022 to July 2023
    assert_eq!(year.initial_sunday, ymd(2022, 7, 10));
    let weeks = year.month_starts();
    assert_eq!(weeks[0], 3); // 2022-08-01
    assert_eq!(weeks[11], 50); // 2023-07-01
    assert_eq!(year.first_full_month0(), 7);
}

#[test]
fn month_names() {
    assert_eq!(month0_name(0), "Jan");
    assert_eq!(month0_name(4), "May");
    assert_eq!(month0_name(11), "Dec");
}

#[test]
fn month_labels_at_their_columns() {
    let weeks = [0, 4, 8, 12, 16, 20, 24, 28, 32, 36, 40, 44];
    assert_eq!(
        format_month_labels(&weeks, 0),
        "Jan Feb Mar Apr May Jun Jul Aug Sep Oct Nov Dec"
    );
    let weeks = [2, 6, 11, 15, 19, 24, 28, 32, 37, 41, 45, 50];
    assert_eq!(
        format_month_labels(&weeks, 10),
        "  Nov Dec  Jan Feb Mar  Apr May Jun  Jul Aug Sep  Oct"
    );
}

#[test]
fn header_for_year() {
    let year = Year::from_today(ymd(2024, 1, 1));
    let weeks = year.month_starts();
    let header = format_months(&year);
    assert_eq!(header.len(), weeks[11] + 3);
    let names = [
        "Feb", "Mar", "Apr", "May", "Jun", "Jul", "Aug", "Sep", "Oct", "Nov", "Dec", "Jan",
    ];
    for i in 0..12 {
        assert_eq!(&header[weeks[i]..weeks[i] + 3], names[i]);
    }
    assert!(header.starts_with("    Feb"));
}
