//! The calendar that dates in queries are read by.
use crate::query::calendar::{day_number, days_in_month, days_to_year, is_day, leap, timestamp};
use crate::text::{all_digits, decimal, decimal_of_decimal_text, decimal_text};
use vstd::prelude::*;

verus! {

/// Months of thirty and of thirty-one days take turns, with two of thirty-one in
/// July and August; February has what the year leaves it.
pub proof fn months_have_their_days(year: int, month: int)
    requires
        1 <= month <= 12,
    ensures
        month != 2 ==> days_in_month(year, month) == 30 + (month + month / 8) % 2,
        days_in_month(year, 2) == if year % 4 == 0 && (year % 25 != 0 || year % 16 == 0) {
            29int
        } else {
            28
        },
{
}

/// A year has 365 days, and one more where it is a leap year: every fourth is,
/// but of the hundreds only every fourth.
pub proof fn years_have_their_days(year: int)
    requires
        year >= 1970,
    ensures
        day_number(year + 1, 1, 1) - day_number(year, 1, 1) == if year % 4 == 0 && (year % 25 != 0
            || year % 16 == 0) {
            366int
        } else {
            365
        },
        day_number(1970, 1, 1) == 0,
{
    assert(leap(year) <==> year % 4 == 0 && (year % 25 != 0 || year % 16 == 0));
}

/// A date that is written out stands for the second at which its day begins,
/// where there is such a day, and for nothing where there is none.
pub proof fn dates_are_read(year: Seq<char>, month: Seq<char>, day: Seq<char>)
    requires
        year.len() == 4,
        month.len() == 2,
        day.len() == 2,
        all_digits(year),
        all_digits(month),
        all_digits(day),
    ensures
        ({
            let text = year + seq!['-'] + month + seq!['-'] + day;
            let (y, m, d) = (decimal(year) as int, decimal(month) as int, decimal(day) as int);
            &&& is_day(y, m, d) ==> timestamp(text) is Some && timestamp(text)->0 == 24 * 60 * 60
                * day_number(y, m, d)
            &&& !is_day(y, m, d) ==> timestamp(text) is None
        }),
{
    let text = year + seq!['-'] + month + seq!['-'] + day;
    assert(text[4] == '-' && text[7] == '-');
    assert(text.subrange(0, 4) =~= year);
    assert(text.subrange(5, 7) =~= month);
    assert(text.subrange(8, 10) =~= day);
    lemma_small(year);
    lemma_small(month);
    lemma_small(day);
    if is_day(decimal(year) as int, decimal(month) as int, decimal(day) as int) {
        lemma_from_1970(decimal(year) as int);
        lemma_months(decimal(year) as int, decimal(month) as int);
    }
}

proof fn lemma_from_1970(year: int)
    ensures
        days_to_year(year) >= 0,
    decreases year,
{
    if year > 1970 {
        lemma_from_1970(year - 1);
    }
}

proof fn lemma_months(year: int, month: int)
    ensures
        crate::query::calendar::days_to_month(year, month) >= 0,
    decreases month,
{
    if month > 1 {
        lemma_months(year, month - 1);
    }
}

proof fn lemma_small(s: Seq<char>)
    requires
        s.len() <= 4,
        all_digits(s),
    ensures
        decimal(s) < 10000,
{
    lemma_digits(s);
}

proof fn lemma_digits(s: Seq<char>)
    requires
        s.len() <= 4,
        all_digits(s),
    ensures
        s.len() == 0 ==> decimal(s) == 0,
        s.len() == 1 ==> decimal(s) < 10,
        s.len() == 2 ==> decimal(s) < 100,
        s.len() == 3 ==> decimal(s) < 1000,
        s.len() == 4 ==> decimal(s) < 10000,
    decreases s.len(),
{
    if s.len() > 0 {
        lemma_digits(s.drop_last());
        assert(crate::text::is_digit(s[s.len() - 1]));
    }
}

/// A number of seconds stands for itself.
pub proof fn seconds_are_read(n: u64)
    ensures
        timestamp(decimal_text(n as nat)) == Some(n as nat),
{
    decimal_of_decimal_text(n as nat);
}

} // verus!
