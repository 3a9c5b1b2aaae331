//! Counting commits into the calendar grid: one row of seven weekday counts
//! (Sunday first) per week column of the year.
use crate::calendar::{lemma_window_shape, Year};
use crate::date::{
    day_in_range, days_since, num_days_from_sunday, timestamp_date,
    timestamp_day, weekday_of_day,
};
use vstd::prelude::*;
use vstd::string::StringExecFns;

verus! {

/// A commit as the calendar sees it: when it was made (Unix seconds) and the
/// author's email address.
#[derive(Debug)]
pub struct Commit {
    pub seconds: i64,
    pub email: String,
}

/// Why commits could not be counted.
#[derive(Clone, Copy, Debug, PartialEq, Eq, Structural)]
pub enum TallyError {
    /// A commit's timestamp lies outside the range of representable dates.
    DateOutOfRange,
}

/// The day number of the UTC date on which a commit was made.
pub open spec fn commit_day(c: Commit) -> int {
    timestamp_day(c.seconds as int)
}

/// An email filter admits an address: `"*"` admits every address, any other
/// filter only the address equal to it.
pub open spec fn email_matches(filter: Seq<char>, email: Seq<char>) -> bool {
    filter == "*"@ || email == filter
}

/// Whether a commit ends the scan: its date cannot be represented, or it lies
/// before the year's start (commits come newest first).
pub open spec fn ends_scan(year: Year, c: Commit) -> bool {
    !day_in_range(commit_day(c)) || commit_day(c) < year.start.day_number()
}

/// The index of the first commit from `j` on that ends the scan, or the
/// number of commits where none does.
pub open spec fn scan_end(year: Year, commits: Seq<Commit>, j: int) -> int
    decreases commits.len() - j,
{
    if j >= commits.len() {
        commits.len() as int
    } else if ends_scan(year, commits[j]) {
        j
    } else {
        scan_end(year, commits, j + 1)
    }
}

/// Whether a commit that does not end the scan is counted, in the cell of
/// week `w` and weekday `wd`: its author passes the filter and its week
/// column lies within the year (a commit dated after `end` may fall beyond).
pub open spec fn counted_in(year: Year, filter: Seq<char>, c: Commit, w: int, wd: int) -> bool {
    &&& email_matches(filter, c.email@)
    &&& year.week_of_day(commit_day(c)) < year.week_count()
    &&& year.week_of_day(commit_day(c)) == w
    &&& weekday_of_day(commit_day(c)) == wd
}

/// How many of the first `n` commits are counted in the cell (`w`, `wd`).
pub open spec fn cell_count(
    year: Year,
    filter: Seq<char>,
    commits: Seq<Commit>,
    n: int,
    w: int,
    wd: int,
) -> nat
    decreases n,
{
    if n <= 0 {
        0
    } else {
        cell_count(year, filter, commits, n - 1, w, wd) + if counted_in(
            year,
            filter,
            commits[n - 1],
            w,
            wd,
        ) {
            1nat
        } else {
            0nat
        }
    }
}

/// The counts of a grid, week by week.
pub open spec fn grid_view(grid: Seq<[u32; 7]>) -> Seq<Seq<int>> {
    Seq::new(grid.len(), |w: int| Seq::new(7, |wd: int| grid[w][wd] as int))
}

/// The grid that counts the first `n` commits.
pub open spec fn counts_upto(year: Year, filter: Seq<char>, commits: Seq<Commit>, n: int) -> Seq<
    Seq<int>,
> {
    Seq::new(
        year.week_count() as nat,
        |w: int| Seq::new(7, |wd: int| cell_count(year, filter, commits, n, w, wd) as int),
    )
}

/// What counting a commit list yields: an error where the scan ends on a
/// commit whose date cannot be represented; else the counts of the commits
/// before the scan ends.
pub open spec fn tally_outcome(
    year: Year,
    filter: Seq<char>,
    commits: Seq<Commit>,
    r: Result<Vec<[u32; 7]>, TallyError>,
) -> bool {
    let stop = scan_end(year, commits, 0);
    if stop < commits.len() && !day_in_range(commit_day(commits[stop])) {
        r == Err::<Vec<[u32; 7]>, TallyError>(TallyError::DateOutOfRange)
    } else {
        r matches Ok(g) && grid_view(g@) == counts_upto(year, filter, commits, stop)
    }
}

/// A grid of `num_weeks` weeks with every count zero.
pub fn empty_grid(year: &Year) -> (r: Vec<[u32; 7]>)
    requires
        year.wf(),
    ensures
        r.len() == year.week_count(),
        forall|w: int, wd: int| 0 <= w < r.len() && 0 <= wd < 7 ==> r[w][wd] == 0,
{
    let n = year.num_weeks();
    let mut grid: Vec<[u32; 7]> = Vec::new();
    while grid.len() < n
        invariant
            grid.len() <= n,
            forall|w: int, wd: int| 0 <= w < grid.len() && 0 <= wd < 7 ==> grid[w][wd] == 0,
        decreases n - grid.len(),
    {
        let row: [u32; 7] = [0, 0, 0, 0, 0, 0, 0];
        grid.push(row);
    }
    grid
}

/// Whether an email filter admits an author's address.
pub fn email_filter_matches(filter: &String, email: &String) -> (r: bool)
    ensures
        r == email_matches(filter@, email@),
{
    proof {
        reveal_strlit("*");
    }
    let everyone = String::from_str("*");
    *filter == everyone || *email == *filter
}

/// Counts one commit into the grid. Returns `Ok(false)` when the commit lies
/// before the year's start, which ends the scan of a newest-first list;
/// `Ok(true)` otherwise, having added one to the commit's cell where the
/// filter admits its author and its week lies within the year.
pub fn record_commit(grid: &mut Vec<[u32; 7]>, year: &Year, filter: &String, commit: &Commit) -> (r:
    Result<bool, TallyError>)
    requires
        year.wf(),
        old(grid).len() == year.week_count(),
        forall|w: int, wd: int|
            0 <= w < old(grid).len() && 0 <= wd < 7 ==> old(grid)[w][wd] < u32::MAX,
    ensures
        final(grid).len() == old(grid).len(),
        !day_in_range(commit_day(*commit)) ==> r == Err::<bool, TallyError>(
            TallyError::DateOutOfRange,
        ) && final(grid)@ == old(grid)@,
        day_in_range(commit_day(*commit)) ==> r == Ok::<bool, TallyError>(
            !ends_scan(*year, *commit),
        ),
        ends_scan(*year, *commit) ==> final(grid)@ == old(grid)@,
        !ends_scan(*year, *commit) ==> forall|w: int, wd: int|
            0 <= w < final(grid).len() && 0 <= wd < 7 ==> final(grid)[w][wd] == old(grid)[w][wd]
                + if counted_in(*year, filter@, *commit, w, wd) {
                1int
            } else {
                0int
            },
{
    let date = match timestamp_date(commit.seconds) {
        Some(d) => d,
        None => {
            return Err(TallyError::DateOutOfRange);
        },
    };
    if days_since(date, year.start) < 0 {
        return Ok(false);
    }
    proof {
        lemma_window_shape(*year);
    }
    let week = year.week(date);
    let weekday = num_days_from_sunday(date) as usize;
    if week < grid.len() && email_filter_matches(filter, &commit.email) {
        let mut row = grid[week];
        row[weekday] = row[weekday] + 1;
        grid.set(week, row);
    }
    Ok(true)
}

/// Counts a newest-first list of commits into a grid of the year's weeks,
/// stopping at the first commit dated before the year's start: it and every
/// commit after it are left out, so an out-of-order list is undercounted.
pub fn tally_contributions(year: &Year, filter: &String, commits: &Vec<Commit>) -> (r: Result<
    Vec<[u32; 7]>,
    TallyError,
>)
    requires
        year.wf(),
        commits.len() < u32::MAX,
    ensures
        tally_outcome(*year, filter@, commits@, r),
{
    let mut grid = empty_grid(year);
    let mut i: usize = 0;
    proof {
        assert forall|w: int| 0 <= w < grid.len() implies grid_view(grid@)[w] =~= counts_upto(
            *year,
            filter@,
            commits@,
            0,
        )[w] by {}
        assert(grid_view(grid@) =~= counts_upto(*year, filter@, commits@, 0));
    }
    while i < commits.len()
        invariant
            year.wf(),
            commits.len() < u32::MAX,
            i <= commits.len(),
            grid.len() == year.week_count(),
            scan_end(*year, commits@, 0) == scan_end(*year, commits@, i as int),
            grid_view(grid@) == counts_upto(*year, filter@, commits@, i as int),
            forall|w: int, wd: int| 0 <= w < grid.len() && 0 <= wd < 7 ==> grid[w][wd] <= i,
        decreases commits.len() - i,
    {
        let ghost before = grid@;
        let step = record_commit(&mut grid, year, filter, &commits[i]);
        match step {
            Err(e) => {
                return Err(e);
            },
            Ok(false) => {
                return Ok(grid);
            },
            Ok(true) => {},
        }
        proof {
            let n = i as int;
            let later = counts_upto(*year, filter@, commits@, n + 1);
            assert forall|w: int| 0 <= w < grid.len() implies grid_view(grid@)[w] =~= later[w] by {
                assert forall|wd: int| 0 <= wd < 7 implies grid_view(grid@)[w][wd] == later[w][wd] by {
                    assert(grid_view(before)[w][wd] == counts_upto(*year, filter@, commits@, n)[w][wd]);
                }
            }
            assert(grid_view(grid@) =~= later);
            assert forall|w: int, wd: int| 0 <= w < grid.len() && 0 <= wd < 7 implies grid[w][wd]
                <= n + 1 by {
                assert(before[w][wd] <= n);
                assert(grid_view(before)[w][wd] == before[w][wd]);
                assert(grid_view(grid@)[w][wd] == grid[w][wd]);
                assert(grid_view(grid@)[w][wd] == later[w][wd]);
                assert(later[w][wd] <= counts_upto(*year, filter@, commits@, n)[w][wd] + 1);
            }
        }
        i = i + 1;
    }
    Ok(grid)
}

/// Counting the same commit list twice, with the same year and filter, gives
/// the same outcome: the same error, or grids with the same counts.
pub proof fn lemma_tally_deterministic(
    year: Year,
    filter: Seq<char>,
    commits: Seq<Commit>,
    r1: Result<Vec<[u32; 7]>, TallyError>,
    r2: Result<Vec<[u32; 7]>, TallyError>,
)
    requires
        tally_outcome(year, filter, commits, r1),
        tally_outcome(year, filter, commits, r2),
    ensures
        r1 is Ok <==> r2 is Ok,
        r1 is Err ==> r1 == r2,
        r1 matches Ok(g1) ==> r2 matches Ok(g2) && g1@ == g2@,
{
    if let Ok(g1) = r1 {
        if let Ok(g2) = r2 {
            assert(g1@.len() == grid_view(g1@).len());
            assert forall|w: int| 0 <= w < g1@.len() implies g1@[w] == g2@[w] by {
                assert forall|wd: int| 0 <= wd < 7 implies g1@[w][wd] == g2@[w][wd] by {
                    assert(grid_view(g1@)[w][wd] == grid_view(g2@)[w][wd]);
                }
                assert(g1@[w]@ =~= g2@[w]@);
            }
            assert(g1@ =~= g2@);
        }
    }
}

} // verus!
