//! Dates as seconds since the first of January 1970.
use crate::text::{all_digits, decimal, digits_from, digits_number, is_digit, parse_digits};
use vstd::prelude::*;

verus! {

/// Whether a year has 366 days.
pub open spec fn leap(year: int) -> bool {
    (year % 4 == 0 && year % 100 != 0) || year % 400 == 0
}

/// Number of days of a year.
pub open spec fn days_in_year(year: int) -> int {
    if leap(year) {
        366
    } else {
        365
    }
}

/// Number of days of a month.
pub open spec fn days_in_month(year: int, month: int) -> int {
    if month == 2 {
        if leap(year) {
            29
        } else {
            28
        }
    } else if month == 4 || month == 6 || month == 9 || month == 11 {
        30
    } else {
        31
    }
}

/// Number of days from the start of 1970 to the start of a year.
pub open spec fn days_to_year(year: int) -> int
    decreases year - 1970,
{
    if year <= 1970 {
        0
    } else {
        days_to_year(year - 1) + days_in_year(year - 1)
    }
}

/// Number of days from the start of a year to the start of a month.
pub open spec fn days_to_month(year: int, month: int) -> int
    decreases month,
{
    if month <= 1 {
        0
    } else {
        days_to_month(year, month - 1) + days_in_month(year, month - 1)
    }
}

/// Whether a day exists, from 1970 on.
pub open spec fn is_day(year: int, month: int, day: int) -> bool {
    year >= 1970 && 1 <= month <= 12 && 1 <= day <= days_in_month(year, month)
}

/// Number of whole days from the first of January 1970 to a day.
pub open spec fn day_number(year: int, month: int, day: int) -> int {
    days_to_year(year) + days_to_month(year, month) + day - 1
}

/// The second at which the day that a text names begins. The text is a year
/// of four digits, a month of two and a day of two, with dashes between.
pub open spec fn date(s: Seq<char>) -> Option<nat> {
    if s.len() == 10 && s[4] == '-' && s[7] == '-' {
        match (
            digits_number(s.subrange(0, 4), u32::MAX as nat),
            digits_number(s.subrange(5, 7), u32::MAX as nat),
            digits_number(s.subrange(8, 10), u32::MAX as nat),
        ) {
            (Some(y), Some(m), Some(d)) => if is_day(y as int, m as int, d as int) {
                Some((86400 * day_number(y as int, m as int, d as int)) as nat)
            } else {
                None
            },
            _ => None,
        }
    } else {
        None
    }
}

/// The second that a text names: a number of seconds, or a date.
pub open spec fn timestamp(s: Seq<char>) -> Option<nat> {
    if s.len() > 0 && all_digits(s) {
        digits_number(s, u64::MAX as nat)
    } else {
        date(s)
    }
}

/// Number of leap days in the years from 1 to `year`.
pub open spec fn leap_days(year: int) -> int {
    year / 4 - year / 100 + year / 400
}

proof fn lemma_leap_step(year: int)
    requires
        year >= 1,
    ensures
        leap_days(year) - leap_days(year - 1) == if leap(year) {
            1int
        } else {
            0
        },
{
    assert(year / 4 - (year - 1) / 4 == if year % 4 == 0 {
        1int
    } else {
        0
    });
    assert(year / 100 - (year - 1) / 100 == if year % 100 == 0 {
        1int
    } else {
        0
    });
    assert(year / 400 - (year - 1) / 400 == if year % 400 == 0 {
        1int
    } else {
        0
    });
    assert(year % 400 == 0 ==> year % 100 == 0);
    assert(year % 100 == 0 ==> year % 4 == 0);
}

proof fn lemma_days_to_year(year: int)
    requires
        year >= 1970,
    ensures
        days_to_year(year) == (year - 1970) * 365 + leap_days(year - 1) - leap_days(1969),
    decreases year,
{
    if year > 1970 {
        lemma_days_to_year(year - 1);
        lemma_leap_step(year - 1);
    }
}

proof fn lemma_days_to_month(year: int)
    ensures
        days_to_month(year, 1) == 0,
        days_to_month(year, 2) == 31,
        leap(year) ==> days_to_month(year, 3) == 60,
        !leap(year) ==> days_to_month(year, 3) == 59,
        days_to_month(year, 4) == days_to_month(year, 3) + 31,
        days_to_month(year, 5) == days_to_month(year, 3) + 61,
        days_to_month(year, 6) == days_to_month(year, 3) + 92,
        days_to_month(year, 7) == days_to_month(year, 3) + 122,
        days_to_month(year, 8) == days_to_month(year, 3) + 153,
        days_to_month(year, 9) == days_to_month(year, 3) + 184,
        days_to_month(year, 10) == days_to_month(year, 3) + 214,
        days_to_month(year, 11) == days_to_month(year, 3) + 245,
        days_to_month(year, 12) == days_to_month(year, 3) + 275,
{
    reveal_with_fuel(days_to_month, 13);
}

/// The day after a day has the next number: within a month, at the end of a
/// month, and at the end of a year.
pub proof fn next_day_has_next_number(year: int, month: int, day: int)
    requires
        is_day(year, month, day),
    ensures
        day < days_in_month(year, month) ==> is_day(year, month, day + 1) && day_number(
            year,
            month,
            day + 1,
        ) == day_number(year, month, day) + 1,
        day == days_in_month(year, month) && month < 12 ==> is_day(year, month + 1, 1)
            && day_number(year, month + 1, 1) == day_number(year, month, day) + 1,
        day == days_in_month(year, month) && month == 12 ==> is_day(year + 1, 1, 1) && day_number(
            year + 1,
            1,
            1,
        ) == day_number(year, month, day) + 1,
{
    lemma_days_to_month(year);
    lemma_days_to_month(year + 1);
}

/// Whether a year is a leap year.
pub fn is_leap_year(year: i32) -> (r: bool)
    ensures
        r == leap(year as int),
{
    let y: u64 = if year < 0 {
        (-(year as i64)) as u64
    } else {
        year as u64
    };
    assert((year as int) % 4 == 0 <==> (y as int) % 4 == 0);
    assert((year as int) % 100 == 0 <==> (y as int) % 100 == 0);
    assert((year as int) % 400 == 0 <==> (y as int) % 400 == 0);
    (y % 4 == 0 && y % 100 != 0) || y % 400 == 0
}

/// Days of the year before a month, which counts from one. No days come before
/// month zero, and only the leap day is counted beyond the last month.
pub fn days_before_month(month: u32, leap_year: bool) -> (r: u64)
    ensures
        1 <= month <= 12 ==> forall|year: int|
            leap(year) == leap_year ==> r == #[trigger] days_to_month(year, month as int),
        month == 0 ==> r == 0,
        month > 12 ==> r == if leap_year {
            1int
        } else {
            0
        },
{
    if month > 12 {
        return if leap_year {
            1
        } else {
            0
        };
    }
    proof {
        assert forall|year: int| true implies #[trigger] days_to_month(year, month as int) == (
        if month <= 1 {
            0
        } else if month == 2 {
            31
        } else {
            (if month == 3 {
                59
            } else if month == 4 {
                90
            } else if month == 5 {
                120
            } else if month == 6 {
                151
            } else if month == 7 {
                181
            } else if month == 8 {
                212
            } else if month == 9 {
                243
            } else if month == 10 {
                273
            } else if month == 11 {
                304
            } else {
                334int
            }) + (if leap(year) {
                1int
            } else {
                0
            })
        }) by {
            lemma_days_to_month(year);
        }
    }
    let days: u64 = if month <= 1 {
        0
    } else if month == 2 {
        31
    } else if month == 3 {
        59
    } else if month == 4 {
        90
    } else if month == 5 {
        120
    } else if month == 6 {
        151
    } else if month == 7 {
        181
    } else if month == 8 {
        212
    } else if month == 9 {
        243
    } else if month == 10 {
        273
    } else if month == 11 {
        304
    } else {
        334
    };
    if leap_year && month > 2 {
        days + 1
    } else {
        days
    }
}

/// A row of at most four digits denotes a number below ten thousand.
proof fn lemma_four_digits(s: Seq<char>)
    requires
        s.len() <= 4,
        all_digits(s),
    ensures
        decimal(s) < 10000,
{
    reveal_with_fuel(decimal, 5);
    assert(s.len() > 0 ==> is_digit(s.last()));
    assert(s.len() > 1 ==> is_digit(s.drop_last().last()));
    assert(s.len() > 2 ==> is_digit(s.drop_last().drop_last().last()));
    assert(s.len() > 3 ==> is_digit(s.drop_last().drop_last().drop_last().last()));
}

/// The second that a text names is one of 64 bits.
pub proof fn lemma_time_fits(s: Seq<char>)
    ensures
        timestamp(s) is Some ==> timestamp(s)->0 <= u64::MAX,
{
    if !(s.len() > 0 && all_digits(s)) && date(s) is Some {
        let text = s.subrange(0, 4);
        lemma_four_digits(text);
        let year = digits_number(text, u32::MAX as nat)->0 as int;
        lemma_days_to_year(year);
        lemma_days_to_month(year);
    }
}

/// The second that a date names.
pub fn parse_date(s: &Vec<char>) -> (r: Option<u64>)
    ensures
        match r {
            Some(t) => date(s@) == Some(t as nat),
            None => date(s@) is None,
        },
{
    if s.len() != 10 || s[4] != '-' || s[7] != '-' {
        return None;
    }
    let max: u64 = u32::MAX as u64;
    let (year, month, day) = match (
        parse_digits(s, 0, 4, max),
        parse_digits(s, 5, 7, max),
        parse_digits(s, 8, 10, max),
    ) {
        (Some(y), Some(m), Some(d)) => (y as u32, m as u32, d as u32),
        _ => return None,
    };
    if year < 1970 || month < 1 || month > 12 {
        return None;
    }
    proof {
        let text = s@.subrange(0, 4);
        lemma_four_digits(text);
        lemma_days_to_year(year as int);
        lemma_days_to_month(year as int);
    }
    let leap_year = is_leap_year(year as i32);
    let length: u32 = if month == 2 {
        if leap_year {
            29
        } else {
            28
        }
    } else if month == 4 || month == 6 || month == 9 || month == 11 {
        30
    } else {
        31
    };
    if day == 0 || day > length {
        return None;
    }
    let y: u64 = year as u64;
    let leaps: u64 = (y - 1) / 4 - (y - 1) / 100 + (y - 1) / 400 - 477;
    let before: u64 = days_before_month(month, leap_year);
    let days: u64 = (y - 1970) * 365 + leaps + before + (day as u64 - 1);
    Some(days * 86400)
}

/// The second that a number or a date names.
pub fn parse_timestamp(s: &Vec<char>) -> (r: Option<u64>)
    ensures
        match r {
            Some(t) => timestamp(s@) == Some(t as nat),
            None => timestamp(s@) is None,
        },
{
    assert(s@.skip(0) =~= s@);
    if s.len() > 0 && digits_from(s, 0) {
        assert(s@.subrange(0, s@.len() as int) =~= s@);
        parse_digits(s, 0, s.len(), u64::MAX)
    } else {
        parse_date(s)
    }
}

} // verus!
