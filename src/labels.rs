//! The header line: three-letter month names over the week columns in which
//! the months begin.
use crate::calendar::{lemma_month_starts_chronological, Year};
use vstd::prelude::*;
use vstd::string::StringExecFns;

verus! {

/// The three-letter English name of a month, 0 for January.
pub open spec fn month_abbrev(month0: int) -> Seq<char> {
    if month0 == 0 {
        "Jan"@
    } else if month0 == 1 {
        "Feb"@
    } else if month0 == 2 {
        "Mar"@
    } else if month0 == 3 {
        "Apr"@
    } else if month0 == 4 {
        "May"@
    } else if month0 == 5 {
        "Jun"@
    } else if month0 == 6 {
        "Jul"@
    } else if month0 == 7 {
        "Aug"@
    } else if month0 == 8 {
        "Sep"@
    } else if month0 == 9 {
        "Oct"@
    } else if month0 == 10 {
        "Nov"@
    } else {
        "Dec"@
    }
}

pub open spec fn spaces(n: int) -> Seq<char> {
    Seq::new(n as nat, |_i: int| ' ')
}

/// The column just after the `i`-th label, or 0 before the first.
pub open spec fn label_end(weeks: Seq<usize>, i: int) -> int {
    if i <= 0 { 0 } else { weeks[i - 1] + 3 }
}

/// The header up to and including the `n`-th label: before each label,
/// blanks up to its week column, then the month's name; months run on from
/// `first_month0`.
pub open spec fn month_header(weeks: Seq<usize>, first_month0: int, n: nat) -> Seq<char>
    decreases n,
{
    if n == 0 {
        Seq::empty()
    } else {
        month_header(weeks, first_month0, (n - 1) as nat) + spaces(
            weeks[n - 1] - label_end(weeks, n - 1),
        ) + month_abbrev((first_month0 + n - 1) % 12)
    }
}

/// The three-letter name of a month, 0 for January.
pub fn month0_name(month: usize) -> (r: &'static str)
    requires
        month < 12,
    ensures
        r@ == month_abbrev(month as int),
        r@.len() == 3,
{
    proof {
        reveal_strlit("Jan");
        reveal_strlit("Feb");
        reveal_strlit("Mar");
        reveal_strlit("Apr");
        reveal_strlit("May");
        reveal_strlit("Jun");
        reveal_strlit("Jul");
        reveal_strlit("Aug");
        reveal_strlit("Sep");
        reveal_strlit("Oct");
        reveal_strlit("Nov");
        reveal_strlit("Dec");
    }
    match month {
        0 => "Jan",
        1 => "Feb",
        2 => "Mar",
        3 => "Apr",
        4 => "May",
        5 => "Jun",
        6 => "Jul",
        7 => "Aug",
        8 => "Sep",
        9 => "Oct",
        10 => "Nov",
        _ => "Dec",
    }
}

/// Lays out the twelve month names, starting from `first_month0`, each at
/// the column given for it in `weeks`. Each label takes three columns, so
/// consecutive columns must lie at least three apart.
pub fn format_month_labels(weeks: &[usize; 12], first_month0: usize) -> (r: String)
    requires
        first_month0 < 12,
        forall|i: int| 0 <= i < 11 ==> #[trigger] weeks[i] + 3 <= weeks[i + 1],
        weeks[11] + 3 <= usize::MAX,
    ensures
        r@ == month_header(weeks@, first_month0 as int, 12),
{
    let mut month = first_month0;
    let mut txt = String::new();
    let mut txt_i: usize = 0;
    let mut weeks_i: usize = 0;
    proof {
        assert(txt@ =~= month_header(weeks@, first_month0 as int, 0) + spaces(0));
    }
    while weeks_i < 12
        invariant
            first_month0 < 12,
            forall|i: int| 0 <= i < 11 ==> #[trigger] weeks[i] + 3 <= weeks[i + 1],
            weeks[11] + 3 <= usize::MAX,
            weeks_i <= 12,
            month == (first_month0 + weeks_i) % 12,
            label_end(weeks@, weeks_i as int) <= txt_i,
            weeks_i < 12 ==> txt_i <= weeks[weeks_i as int],
            weeks_i == 12 ==> txt_i == label_end(weeks@, 12),
            txt@ == month_header(weeks@, first_month0 as int, weeks_i as nat) + spaces(
                txt_i - label_end(weeks@, weeks_i as int),
            ),
        decreases 12 - weeks_i, weeks[weeks_i as int] - txt_i,
    {
        if txt_i == weeks[weeks_i] {
            let name = month0_name(month);
            let ghost before = txt@;
            txt.append(name);
            proof {
                assert(month_header(weeks@, first_month0 as int, (weeks_i + 1) as nat) =~= before
                    + name@);
            }
            month = (month + 1) % 12;
            weeks_i += 1;
            txt_i += 3;
            proof {
                assert(spaces(0) =~= Seq::<char>::empty());
                assert(txt@ =~= month_header(weeks@, first_month0 as int, weeks_i as nat) + spaces(
                    txt_i - label_end(weeks@, weeks_i as int),
                ));
            }
        } else {
            let ghost before = txt@;
            proof {
                reveal_strlit(" ");
            }
            txt.append(" ");
            txt_i += 1;
            proof {
                assert(txt@ =~= month_header(weeks@, first_month0 as int, weeks_i as nat) + spaces(
                    txt_i - label_end(weeks@, weeks_i as int),
                ));
            }
        }
    }
    proof {
        assert(txt@ =~= month_header(weeks@, first_month0 as int, 12));
    }
    txt
}

/// The header for a year: the twelve month names, from the first full month
/// on, each over the week in which that month begins.
pub fn format_months(year: &Year) -> (r: String)
    requires
        year.wf(),
    ensures
        r@ == month_header(
            Seq::new(12, |i: int| year.month_start_week(i) as usize),
            year.first_full_month(),
            12,
        ),
{
    let weeks = year.month_starts();
    proof {
        lemma_month_starts_chronological(*year);
        crate::calendar::lemma_month_starts(*year, 11);
        assert(weeks@ =~= Seq::new(12, |i: int| year.month_start_week(i) as usize));
    }
    format_month_labels(&weeks, year.first_full_month0())
}

} // verus!
