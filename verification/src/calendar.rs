//! Days of the Gregorian calendar, as the operator writes them.

use vstd::prelude::*;

use crate::number::{all_digits, is_digit, value_of};
use crate::text::to_chars;

verus! {

/// The year has a 29 February.
pub open spec fn leap(year: int) -> bool {
    year % 4 == 0 && (year % 100 != 0 || year % 400 == 0)
}

/// How many days the year has.
pub open spec fn year_days(year: int) -> int {
    if leap(year) {
        366
    } else {
        365
    }
}

/// How many days the month has.
pub open spec fn month_days(year: int, month: int) -> int {
    if month == 2 {
        if leap(year) {
            29
        } else {
            28
        }
    } else if month == 4 || month == 6 || month == 9 || month == 11 {
        30
    } else {
        31
    }
}

/// How many days the years from 0 up to `year` have.
pub open spec fn days_before_year(year: nat) -> int
    decreases year,
{
    if year == 0 {
        0
    } else {
        days_before_year((year - 1) as nat) + year_days(year - 1)
    }
}

/// How many days of the year lie before the month.
pub open spec fn days_before_month(year: int, month: nat) -> int
    decreases month,
{
    if month <= 1 {
        0
    } else {
        days_before_month(year, (month - 1) as nat) + month_days(year, month - 1)
    }
}

/// The year, month and day that `text` names, written as in `2025-08-06`, if
/// there is such a day.
pub open spec fn date_of(text: Seq<char>) -> Option<(int, int, int)> {
    let year = text.subrange(0, 4);
    let month = text.subrange(5, 7);
    let day = text.subrange(8, 10);
    if text.len() == 10 && text[4] == '-' && text[7] == '-' && all_digits(year) && all_digits(month)
        && all_digits(day) && 1 <= value_of(month) <= 12 && 1 <= value_of(day) <= month_days(
        value_of(year),
        value_of(month),
    ) {
        Some((value_of(year), value_of(month), value_of(day)))
    } else {
        None
    }
}

/// When the day begins, in seconds since 1970 began.
pub open spec fn day_start(year: int, month: int, day: int) -> int {
    (days_before_year(year as nat) - days_before_year(1970) + days_before_month(
        year,
        month as nat,
    ) + day - 1) * 86400
}

/// What the digits between two positions stand for.
fn field(chars: &Vec<char>, from: usize, to: usize) -> (r: Option<u64>)
    requires
        from <= to <= chars@.len(),
        to - from <= 4,
    ensures
        match r {
            Some(v) => all_digits(chars@.subrange(from as int, to as int)) && v == value_of(
                chars@.subrange(from as int, to as int),
            ) && v < 10000,
            None => !all_digits(chars@.subrange(from as int, to as int)),
        },
{
    let ghost part = chars@.subrange(from as int, to as int);
    let mut v: u64 = 0;
    let mut i: usize = from;
    while i < to
        invariant
            from <= i <= to <= chars@.len(),
            to - from <= 4,
            part == chars@.subrange(from as int, to as int),
            forall|k: int| 0 <= k < i - from ==> is_digit(#[trigger] part[k]),
            v == value_of(part.take(i - from)),
            i - from == 0 ==> v == 0,
            i - from == 1 ==> v < 10,
            i - from == 2 ==> v < 100,
            i - from == 3 ==> v < 1000,
            i - from == 4 ==> v < 10000,
        decreases to - i,
    {
        let c = chars[i];
        assert(part[i - from] == c);
        if !('0' <= c && c <= '9') {
            return None;
        }
        assert(part.take(i - from + 1).drop_last() =~= part.take(i - from));
        v = v * 10 + (c as u64 - '0' as u64);
        i = i + 1;
    }
    assert(part.take(to - from) =~= part);
    Some(v)
}

fn is_leap(year: u64) -> (r: bool)
    ensures
        r == leap(year as int),
{
    year % 4 == 0 && (year % 100 != 0 || year % 400 == 0)
}

fn length_of_month(year: u64, month: u64) -> (r: u64)
    ensures
        r == month_days(year as int, month as int),
{
    if month == 2 {
        if is_leap(year) {
            29
        } else {
            28
        }
    } else if month == 4 || month == 6 || month == 9 || month == 11 {
        30
    } else {
        31
    }
}

/// The days of the years before `year`.
fn years_in_days(year: u64) -> (r: i64)
    requires
        year < 10000,
    ensures
        r == days_before_year(year as nat),
        0 <= r <= 366 * year,
{
    let mut days: i64 = 0;
    let mut y: u64 = 0;
    while y < year
        invariant
            y <= year < 10000,
            days == days_before_year(y as nat),
            0 <= days <= 366 * y,
        decreases year - y,
    {
        days = days + if is_leap(y) {
            366
        } else {
            365
        };
        y = y + 1;
    }
    days
}

/// The days of the months before `month`.
fn months_in_days(year: u64, month: u64) -> (r: i64)
    requires
        1 <= month <= 12,
    ensures
        r == days_before_month(year as int, month as nat),
        0 <= r <= 31 * month,
{
    let mut days: i64 = 0;
    let mut m: u64 = 1;
    while m < month
        invariant
            1 <= m <= month <= 12,
            days == days_before_month(year as int, m as nat),
            0 <= days <= 31 * m,
        decreases month - m,
    {
        days = days + length_of_month(year, m) as i64;
        m = m + 1;
    }
    days
}

/// When the day begins that `text` names, in seconds since 1970 began, if it
/// names one.
pub fn read_day(text: &str) -> (r: Option<i64>)
    ensures
        match date_of(text@) {
            Some((year, month, day)) => r == Some(day_start(year, month, day) as i64) && i64::MIN
                <= day_start(year, month, day) <= i64::MAX,
            None => r is None,
        },
{
    let chars = to_chars(text);
    if chars.len() != 10 || chars[4] != '-' || chars[7] != '-' {
        return None;
    }
    match (field(&chars, 0, 4), field(&chars, 5, 7), field(&chars, 8, 10)) {
        (Some(year), Some(month), Some(day)) => {
            if month < 1 || month > 12 || day < 1 || day > length_of_month(year, month) {
                return None;
            }
            let days: i64 = years_in_days(year) - years_in_days(1970) + months_in_days(year, month)
                + day as i64 - 1;
            Some(days * 86400)
        },
        _ => None,
    }
}

/// Days follow each other: the next day of a month, the first of the next month
/// and the first of the next year each begin a day after the one before them, and
/// 1970 begins at 0. February has 29 days in every fourth year, but of the full
/// centuries only in every fourth.
pub proof fn days_follow_each_other(year: int, month: int, day: int)
    requires
        0 <= year,
        1 <= month <= 12,
    ensures
        day_start(1970, 1, 1) == 0,
        day_start(year, month, day + 1) == day_start(year, month, day) + 86400,
        month < 12 ==> day_start(year, month + 1, 1) == day_start(
            year,
            month,
            month_days(year, month),
        ) + 86400,
        day_start(year + 1, 1, 1) == day_start(year, 12, 31) + 86400,
        month_days(year, month) == if month == 2 {
            if year % 400 == 0 || (year % 4 == 0 && year % 100 != 0) {
                29int
            } else {
                28int
            }
        } else if month == 4 || month == 6 || month == 9 || month == 11 {
            30int
        } else {
            31int
        },
{
    assert(days_before_month(year, 1) == 0);
    assert(days_before_month(1970, 1) == 0);
    assert(days_before_year((year + 1) as nat) == days_before_year(year as nat) + year_days(year));
    if month < 12 {
        assert(days_before_month(year, (month + 1) as nat) == days_before_month(
            year,
            month as nat,
        ) + month_days(year, month));
    }
    reveal_with_fuel(days_before_month, 13);
    assert(days_before_month(year, 12) + 31 == year_days(year));
}

/// A date is read as the numbers that it is made of, and only dates are.
pub proof fn dates_are_read_as_written(
    text: Seq<char>,
    year: Seq<char>,
    month: Seq<char>,
    day: Seq<char>,
)
    requires
        text == year + seq!['-'] + month + seq!['-'] + day,
        year.len() == 4,
        month.len() == 2,
        day.len() == 2,
    ensures
        date_of(text) is Some <==> {
            &&& all_digits(year)
            &&& all_digits(month)
            &&& all_digits(day)
            &&& 1 <= value_of(month) <= 12
            &&& 1 <= value_of(day) <= month_days(value_of(year), value_of(month))
        },
        date_of(text) is Some ==> date_of(text)->0 == (
            value_of(year),
            value_of(month),
            value_of(day),
        ),
{
    assert(text.subrange(0, 4) =~= year);
    assert(text.subrange(5, 7) =~= month);
    assert(text.subrange(8, 10) =~= day);
}

} // verus!
