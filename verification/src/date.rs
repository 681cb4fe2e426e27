//! Dates as LAS headers hold them: a year, and a day in it.

use vstd::prelude::*;

verus! {

/// Whether a year of the Gregorian calendar has 366 days.
pub open spec fn leap(year: int) -> bool {
    (year % 4 == 0 && year % 100 != 0) || year % 400 == 0
}

/// The number of days of a year.
pub open spec fn year_days(year: int) -> int {
    if leap(year) {
        366
    } else {
        365
    }
}

/// The number of days from the first day of the year 0 to the first day of `year`.
pub open spec fn days_before(year: int) -> int
    decreases year,
{
    if year <= 0 {
        0
    } else {
        days_before(year - 1) + year_days(year - 1)
    }
}

/// The days from the first day of the year 0 to the first of January 1970.
pub const UNIX_EPOCH_DAYS: i64 = 719_528;

/// The days from the first day of the year 0 to the end of the year 65535.
pub const LAST_DAYS: i64 = 23_936_532;

/// Whether `(day, year)` is the date so many days after the first day of the year 0.
pub open spec fn is_date(days: int, day: int, year: int) -> bool {
    &&& 0 <= year
    &&& 1 <= day <= year_days(year)
    &&& days == days_before(year) + day - 1
}

/// The count of days in closed form: one more in every fourth year, but for the centuries
/// that four does not divide.
#[verifier::rlimit(40)]
proof fn lemma_days_before(year: int)
    requires
        year >= 0,
    ensures
        days_before(year) == 365 * year + (year + 3) / 4 - (year + 99) / 100 + (year + 399) / 400,
    decreases year,
{
    if year > 0 {
        lemma_days_before(year - 1);
    }
}

/// A day has one date only.
pub proof fn law_date_is_unique(days: int, day: int, year: int, other_day: int, other_year: int)
    requires
        is_date(days, day, year),
        is_date(days, other_day, other_year),
    ensures
        day == other_day,
        year == other_year,
{
    lemma_days_before(year);
    lemma_days_before(year + 1);
    lemma_days_before(other_year);
    lemma_days_before(other_year + 1);
    if year < other_year {
        lemma_days_increase(year + 1, other_year);
    } else if other_year < year {
        lemma_days_increase(other_year + 1, year);
    }
}

proof fn lemma_days_increase(a: int, b: int)
    requires
        0 <= a <= b,
    ensures
        days_before(a) <= days_before(b),
    decreases b - a,
{
    if a < b {
        lemma_days_increase(a, b - 1);
    }
}

/// The day of the year and the year of the day that lies so many days after the first of
/// January 1970.
pub fn utc_date_from_unix_days(days_since_epoch: i64) -> (r: (u16, u16))
    requires
        0 <= days_since_epoch + UNIX_EPOCH_DAYS < LAST_DAYS,
    ensures
        is_date(days_since_epoch + UNIX_EPOCH_DAYS, r.0 as int, r.1 as int),
{
    let days: i64 = days_since_epoch + UNIX_EPOCH_DAYS;
    let mut year: i64 = days / 365;
    proof {
        lemma_days_before(year + 1);
    }
    loop
        invariant
            days == days_since_epoch + UNIX_EPOCH_DAYS,
            0 <= days < LAST_DAYS,
            0 <= year <= 65_579,
            days < days_before(year + 1),
        decreases year,
    {
        proof {
            lemma_days_before(year as int);
            lemma_days_before(year + 1);
        }
        let start: i64 = 365 * year + (year + 3) / 4 - (year + 99) / 100 + (year + 399) / 400;
        if start <= days {
            proof {
                if year > 65_535 {
                    lemma_days_before(65_536);
                    lemma_days_increase(65_536, year as int);
                }
            }
            return ((days - start + 1) as u16, year as u16);
        }
        year = year - 1;
    }
}

/// A year has a day more where four divides it, but for the centuries that four hundred does
/// not divide; four hundred years have 146,097 days.
#[verifier::rlimit(40)]
pub proof fn law_years(year: int)
    requires
        year >= 0,
    ensures
        year_days(year) == 366 <==> year % 4 == 0 && (year % 100 != 0 || year % 400 == 0),
        year_days(year) == 365 || year_days(year) == 366,
        days_before(year + 1) - days_before(year) == year_days(year),
        days_before(year + 400) - days_before(year) == 146_097,
{
    lemma_days_before(year);
    lemma_days_before(year + 400);
}

/// The day after the last of a year is the first of the next, and any other is followed by the
/// next of its year; the count from 1970 on starts with its first day.
pub proof fn law_next_day(days: int, day: int, year: int)
    ensures
        is_date(days, day, year) ==> if day < year_days(year) {
            is_date(days + 1, day + 1, year)
        } else {
            is_date(days + 1, 1, year + 1)
        },
        is_date(UNIX_EPOCH_DAYS as int, 1, 1970),
{
    lemma_days_before(1970);
}

} // verus!
