use git_calendar::calendar::Year;
use git_calendar::date::CalDate;
use git_calendar::tally::{
    email_filter_matches, empty_grid, record_commit, tally_contributions, Commit, TallyError,
};

fn ymd(year: i32, month: u32, day: u32) -> CalDate {
    CalDate { year, month, day }
}

fn at(year: i32, month: u32, day: u32, hour: u32) -> i64 {
    chrono::NaiveDate::from_ymd_opt(year, month, day)
        .unwrap()
        .and_hms_opt(hour, 30, 0)
        .unwrap()
        .and_utc()
        .timestamp()
}

fn commit(seconds: i64, email: &str) -> Commit {
    Commit { seconds, email: email.to_string() }
}

fn total(grid: &[[u32; 7]]) -> u32 {
    grid.iter().map(|w| w.iter().sum::<u32>()).sum()
}

fn window() -> Year {
    Year::from_today(ymd(2024, 1, 1))
}

#[test]
fn single_commit_lands_in_its_cell() {
    let year = window();
    let commits = vec![commit(at(2023, 12, 25, 12), "me@x")];
    let grid = tally_contributions(&year, &"me@x".to_string(), &commits).unwrap();
    assert_eq!(grid.len(), year.num_weeks());
    let week = year.week(ymd(2023, 12, 25));
    assert_eq!(week, 51);
    for w in 0..grid.len() {
        for wd in 0..7 {
            let expected = if w == week && wd == 1 { 1 } else { 0 };
            assert_eq!(grid[w][wd], expected);
        }
    }
}

#[test]
fn filter_by_email() {
    let year = window();
    let commits = vec![
        commit(at(2023, 6, 14, 9), "a@x"),
        commit(at(2023, 6, 13, 9), "b@x"),
        commit(at(2023, 6, 12, 9), "a@x"),
    ];
    let a = tally_contributions(&year, &"a@x".to_string(), &commits).unwrap();
    assert_eq!(total(&a), 2);
    let all = tally_contributions(&year, &"*".to_string(), &commits).unwrap();
    assert_eq!(total(&all), 3);
    let none = tally_contributions(&year, &"c@x".to_string(), &commits).unwrap();
    assert_eq!(total(&none), 0);
    let week = year.week(ymd(2023, 6, 12));
    assert_eq!(all[week][1], 1);
    assert_eq!(all[week][2], 1);
    assert_eq!(all[week][3], 1);
    assert_eq!(a[week][2], 0);
}

#[test]
fn stops_at_first_commit_before_start() {
    let year = window();
    let commits = vec![
        commit(at(2023, 3, 1, 10), "a@x"),
        commit(at(2023, 1, 1, 10), "a@x"),
        commit(at(2023, 2, 1, 10), "a@x"),
    ];
    let grid = tally_contributions(&year, &"*".to_string(), &commits).unwrap();
    assert_eq!(total(&grid), 1);
    assert_eq!(grid[year.week(ymd(2023, 3, 1))][3], 1);
    assert_eq!(grid[year.week(ymd(2023, 2, 1))][3], 0);
}

#[test]
fn first_day_of_window_counts() {
    let year = window();
    let commits = vec![commit(at(2023, 1, 2, 0), "a@x"), commit(at(2023, 1, 1, 23), "a@x")];
    let grid = tally_contributions(&year, &"a@x".to_string(), &commits).unwrap();
    assert_eq!(total(&grid), 1);
    assert_eq!(grid[0][1], 1);
}

#[test]
fn retally_gives_same_grid() {
    let year = window();
    let commits = vec![
        commit(at(2023, 11, 5, 1), "a@x"),
        commit(at(2023, 11, 5, 0), "a@x"),
        commit(at(2023, 4, 22, 8), "b@x"),
    ];
    let first = tally_contributions(&year, &"*".to_string(), &commits).unwrap();
    let second = tally_contributions(&year, &"*".to_string(), &commits).unwrap();
    assert_eq!(first, second);
    assert_eq!(first[year.week(ymd(2023, 11, 5))][0], 2);
}

#[test]
fn empty_commit_list() {
    let year = window();
    let grid = tally_contributions(&year, &"*".to_string(), &Vec::new()).unwrap();
    assert_eq!(grid.len(), 53);
    assert_eq!(total(&grid), 0);
}

#[test]
fn timestamp_out_of_range() {
    let year = window();
    let commits = vec![commit(i64::MAX, "a@x")];
    assert_eq!(
        tally_contributions(&year, &"*".to_string(), &commits),
        Err(TallyError::DateOutOfRange)
    );
}

#[test]
fn commit_beyond_last_week_is_not_counted() {
    let year = window();
    let commits = vec![commit(at(2024, 3, 1, 12), "a@x"), commit(at(2023, 5, 1, 12), "a@x")];
    let grid = tally_contributions(&year, &"*".to_string(), &commits).unwrap();
    assert_eq!(total(&grid), 1);
}

#[test]
fn timestamp_late_in_the_day_keeps_its_date() {
    let year = window();
    let late = at(2023, 12, 25, 23) + 29 * 60 + 59; // 23:59:59 UTC
    let grid = tally_contributions(&year, &"*".to_string(), &vec![commit(late, "a@x")]).unwrap();
    assert_eq!(grid[51][1], 1);
    let before_epoch = tally_contributions(&year, &"*".to_string(), &vec![commit(-1, "a@x")]);
    assert_eq!(total(&before_epoch.unwrap()), 0);
}

#[test]
fn record_commit_steps() {
    let year = window();
    let mut grid = empty_grid(&year);
    let filter = "a@x".to_string();
    assert_eq!(record_commit(&mut grid, &year, &filter, &commit(at(2023, 8, 9, 3), "a@x")), Ok(true));
    assert_eq!(record_commit(&mut grid, &year, &filter, &commit(at(2023, 8, 8, 3), "b@x")), Ok(true));
    assert_eq!(record_commit(&mut grid, &year, &filter, &commit(at(2022, 8, 8, 3), "a@x")), Ok(false));
    assert_eq!(total(&grid), 1);
    assert_eq!(grid[year.week(ymd(2023, 8, 9))][3], 1);
}

#[test]
fn email_filter() {
    assert!(email_filter_matches(&"*".to_string(), &"anyone@x".to_string()));
    assert!(email_filter_matches(&"a@x".to_string(), &"a@x".to_string()));
    assert!(!email_filter_matches(&"a@x".to_string(), &"A@x".to_string()));
    assert!(!email_filter_matches(&"a@x".to_string(), &"*".to_string()));
}
