//! Calendar arithmetic for the journal: validated `Date` values, the proleptic
//! Gregorian day count, and conversions between Unix timestamps, dates and
//! their `YYYY-MM-DD` text form. Timestamps are always interpreted as UTC, so
//! every in-range second maps to exactly one calendar date.

use crate::error::{Error, ErrorKind};
use crate::text::string_from_chars;
use vstd::prelude::*;
use vstd::string::StrSliceExecFns;

verus! {

/// First calendar year the journal can represent (the Unix epoch year).
pub const MIN_YEAR: u32 = 1970;

/// Last calendar year the journal can represent.
pub const MAX_YEAR: u32 = 9999;

/// Seconds in one civil day.
pub const SECS_PER_DAY: u64 = 86400;

/// A calendar date, valid whenever `wf()` holds.
#[derive(Clone, Copy, PartialEq, Eq, Structural, Debug)]
pub struct Date {
    pub year: u32,
    pub month: u8,
    pub day: u8,
}

pub open spec fn is_leap_year(y: int) -> bool {
    y % 4 == 0 && (y % 100 != 0 || y % 400 == 0)
}

pub open spec fn spec_days_in_year(y: int) -> int {
    if is_leap_year(y) {
        366
    } else {
        365
    }
}

pub open spec fn spec_days_in_month(y: int, m: int) -> int {
    if m == 2 {
        if is_leap_year(y) {
            29
        } else {
            28
        }
    } else if m == 4 || m == 6 || m == 9 || m == 11 {
        30
    } else {
        31
    }
}

impl Date {
    /// A well-formed date lies in the supported year range and names a real
    /// day of the Gregorian calendar.
    pub open spec fn wf(self) -> bool {
        &&& MIN_YEAR <= self.year <= MAX_YEAR
        &&& 1 <= self.month <= 12
        &&& 1 <= self.day <= spec_days_in_month(self.year as int, self.month as int)
    }
}

/// Days in the years `[MIN_YEAR, y)`: the day number of 1 January `y`.
pub open spec fn days_before_year(y: int) -> int
    decreases y,
{
    if y <= MIN_YEAR {
        0
    } else {
        days_before_year(y - 1) + spec_days_in_year(y - 1)
    }
}

/// Days in the months `[1, m)` of year `y`: the day-of-year of the first of
/// month `m`, counting from zero.
pub open spec fn days_before_month(y: int, m: int) -> int
    decreases m,
{
    if m <= 1 {
        0
    } else {
        days_before_month(y, m - 1) + spec_days_in_month(y, m - 1)
    }
}

/// The number of whole days between 1 January 1970 and this date.
pub open spec fn day_number(d: Date) -> int {
    days_before_year(d.year as int) + days_before_month(d.year as int, d.month as int) + d.day - 1
}

/// Day counting is monotone in the year.
pub proof fn lemma_days_before_year_monotone(y1: int, y2: int)
    requires
        y1 <= y2,
    ensures
        days_before_year(y1) <= days_before_year(y2),
    decreases y2 - y1,
{
    if y1 < y2 {
        lemma_days_before_year_monotone(y1, y2 - 1);
    }
}

pub fn days_in_year(y: u32) -> (n: u32)
    ensures
        n == spec_days_in_year(y as int),
{
    if y % 4 == 0 && (y % 100 != 0 || y % 400 == 0) {
        366
    } else {
        365
    }
}

/// The months of a year sum to its length.
pub proof fn lemma_months_fill_year(y: int)
    ensures
        days_before_month(y, 13) == spec_days_in_year(y),
{
    assert(days_before_month(y, 1) == 0);
    assert(days_before_month(y, 2) == days_before_month(y, 1) + spec_days_in_month(y, 1));
    assert(days_before_month(y, 3) == days_before_month(y, 2) + spec_days_in_month(y, 2));
    assert(days_before_month(y, 4) == days_before_month(y, 3) + spec_days_in_month(y, 3));
    assert(days_before_month(y, 5) == days_before_month(y, 4) + spec_days_in_month(y, 4));
    assert(days_before_month(y, 6) == days_before_month(y, 5) + spec_days_in_month(y, 5));
    assert(days_before_month(y, 7) == days_before_month(y, 6) + spec_days_in_month(y, 6));
    assert(days_before_month(y, 8) == days_before_month(y, 7) + spec_days_in_month(y, 7));
    assert(days_before_month(y, 9) == days_before_month(y, 8) + spec_days_in_month(y, 8));
    assert(days_before_month(y, 10) == days_before_month(y, 9) + spec_days_in_month(y, 9));
    assert(days_before_month(y, 11) == days_before_month(y, 10) + spec_days_in_month(y, 10));
    assert(days_before_month(y, 12) == days_before_month(y, 11) + spec_days_in_month(y, 11));
    assert(days_before_month(y, 13) == days_before_month(y, 12) + spec_days_in_month(y, 12));
}

/// Day counting is monotone in the month.
pub proof fn lemma_days_before_month_monotone(y: int, m1: int, m2: int)
    requires
        m1 <= m2,
    ensures
        days_before_month(y, m1) <= days_before_month(y, m2),
    decreases m2 - m1,
{
    if m1 < m2 {
        lemma_days_before_month_monotone(y, m1, m2 - 1);
    }
}

/// A date's day number lies within its year's span of the day count.
pub proof fn lemma_day_number_bounds(d: Date)
    requires
        d.wf(),
    ensures
        days_before_year(d.year as int) <= day_number(d),
        day_number(d) < days_before_year(d.year as int + 1),
{
    let y = d.year as int;
    let m = d.month as int;
    lemma_days_before_month_monotone(y, 1, m);
    assert(days_before_month(y, m + 1) == days_before_month(y, m) + spec_days_in_month(y, m));
    lemma_days_before_month_monotone(y, m + 1, 13);
    lemma_months_fill_year(y);
    assert(days_before_year(y + 1) == days_before_year(y) + spec_days_in_year(y));
}

/// Two well-formed dates with the same day number are the same date.
pub proof fn lemma_day_number_injective(d1: Date, d2: Date)
    requires
        d1.wf(),
        d2.wf(),
        day_number(d1) == day_number(d2),
    ensures
        d1 == d2,
{
    lemma_day_number_bounds(d1);
    lemma_day_number_bounds(d2);
    if d1.year < d2.year {
        lemma_days_before_year_monotone(d1.year as int + 1, d2.year as int);
        assert(false);
    }
    if d2.year < d1.year {
        lemma_days_before_year_monotone(d2.year as int + 1, d1.year as int);
        assert(false);
    }
    let y = d1.year as int;
    if d1.month < d2.month {
        assert(days_before_month(y, d1.month as int + 1) == days_before_month(y, d1.month as int)
            + spec_days_in_month(y, d1.month as int));
        lemma_days_before_month_monotone(y, d1.month as int + 1, d2.month as int);
        assert(false);
    }
    if d2.month < d1.month {
        assert(days_before_month(y, d2.month as int + 1) == days_before_month(y, d2.month as int)
            + spec_days_in_month(y, d2.month as int));
        lemma_days_before_month_monotone(y, d2.month as int + 1, d1.month as int);
        assert(false);
    }
}

/// Whether a second count maps to one valid UTC instant within the supported
/// calendar range.
pub open spec fn timestamp_in_range(t: u64) -> bool {
    t as int / (SECS_PER_DAY as int) < days_before_year(MAX_YEAR as int + 1)
}

/// Converts a whole-day count since 1 January 1970 into the calendar date it
/// falls on, or reports that it lies beyond the supported range.
pub fn date_from_days(days: u64) -> (r: Result<Date, Error>)
    ensures
        r matches Ok(d) ==> d.wf() && day_number(d) == days as int,
        r is Ok <==> (days as int) < days_before_year(MAX_YEAR as int + 1),
        r matches Err(e) ==> e.kind == ErrorKind::InvalidTimestamp,
{
    let mut y: u32 = MIN_YEAR;
    let mut rem: u64 = days;
    loop
        invariant
            MIN_YEAR <= y <= MAX_YEAR,
            days as int == days_before_year(y as int) + rem,
        ensures
            MIN_YEAR <= y <= MAX_YEAR,
            days as int == days_before_year(y as int) + rem,
            rem < spec_days_in_year(y as int),
        decreases MAX_YEAR - y,
    {
        let len = days_in_year(y);
        if rem < len as u64 {
            break;
        }
        if y == MAX_YEAR {
            proof {
                assert(days_before_year(MAX_YEAR as int + 1) == days_before_year(MAX_YEAR as int)
                    + spec_days_in_year(MAX_YEAR as int));
            }
            return Err(
                Error::new(
                    ErrorKind::InvalidTimestamp,
                    String::from_str("day count lies beyond the supported calendar range"),
                ),
            );
        }
        rem = rem - len as u64;
        y = y + 1;
    }
    proof {
        lemma_days_before_year_monotone(y as int + 1, MAX_YEAR as int + 1);
        lemma_months_fill_year(y as int);
    }
    let mut m: u8 = 1;
    let ghost rem_year: int = rem as int;
    while rem >= days_in_month(y, m) as u64
        invariant
            MIN_YEAR <= y <= MAX_YEAR,
            1 <= m <= 12,
            rem_year == days_before_month(y as int, m as int) + rem,
            rem_year < spec_days_in_year(y as int),
            days_before_month(y as int, 13) == spec_days_in_year(y as int),
            days as int == days_before_year(y as int) + rem_year,
        decreases 12 - m,
    {
        proof {
            if m == 12 {
                assert(days_before_month(y as int, 13) == days_before_month(y as int, 12)
                    + spec_days_in_month(y as int, 12));
            }
        }
        rem = rem - days_in_month(y, m) as u64;
        m = m + 1;
    }
    let day: u8 = rem as u8 + 1;
    Ok(Date { year: y, month: m, day })
}

/// The calendar date, in UTC, on which a Unix second count falls.
pub fn timestamp_date(secs: u64) -> (r: Result<Date, Error>)
    ensures
        r matches Ok(d) ==> d.wf() && day_number(d) == secs as int / (SECS_PER_DAY as int),
        r is Ok <==> timestamp_in_range(secs),
        r matches Err(e) ==> e.kind == ErrorKind::InvalidTimestamp,
{
    date_from_days(secs / SECS_PER_DAY)
}

/// Validates a raw stored second count as a Unix timestamp: interpreted as
/// UTC, it is accepted exactly when it names one instant inside the supported
/// calendar range.
pub fn to_timestamp(raw: u64) -> (r: Result<u64, Error>)
    ensures
        r matches Ok(t) ==> t == raw,
        r is Ok <==> timestamp_in_range(raw),
        r matches Err(e) ==> e.kind == ErrorKind::InvalidTimestamp,
{
    match date_from_days(raw / SECS_PER_DAY) {
        Ok(_) => Ok(raw),
        Err(e) => Err(e),
    }
}

pub fn days_in_month(y: u32, m: u8) -> (n: u8)
    ensures
        n == spec_days_in_month(y as int, m as int),
{
    if m == 2 {
        if y % 4 == 0 && (y % 100 != 0 || y % 400 == 0) {
            29
        } else {
            28
        }
    } else if m == 4 || m == 6 || m == 9 || m == 11 {
        30
    } else {
        31
    }
}

/// The decimal digit character for a value below ten.
pub open spec fn digit_char(v: int) -> char {
    if v == 0 {
        '0'
    } else if v == 1 {
        '1'
    } else if v == 2 {
        '2'
    } else if v == 3 {
        '3'
    } else if v == 4 {
        '4'
    } else if v == 5 {
        '5'
    } else if v == 6 {
        '6'
    } else if v == 7 {
        '7'
    } else if v == 8 {
        '8'
    } else {
        '9'
    }
}

/// The value of a decimal digit character, or -1 for any other character.
pub open spec fn digit_val(c: char) -> int {
    if c == '0' {
        0
    } else if c == '1' {
        1
    } else if c == '2' {
        2
    } else if c == '3' {
        3
    } else if c == '4' {
        4
    } else if c == '5' {
        5
    } else if c == '6' {
        6
    } else if c == '7' {
        7
    } else if c == '8' {
        8
    } else if c == '9' {
        9
    } else {
        -1
    }
}

/// The unambiguous `YYYY-MM-DD` text form of a date.
pub open spec fn date_str_spec(d: Date) -> Seq<char> {
    seq![
        digit_char(d.year as int / 1000 % 10),
        digit_char(d.year as int / 100 % 10),
        digit_char(d.year as int / 10 % 10),
        digit_char(d.year as int % 10),
        '-',
        digit_char(d.month as int / 10),
        digit_char(d.month as int % 10),
        '-',
        digit_char(d.day as int / 10),
        digit_char(d.day as int % 10),
    ]
}

/// The date encoded by a `YYYY-MM-DD` character sequence; meaningful only
/// when `is_date_seq` holds of it.
pub open spec fn seq_date(s: Seq<char>) -> Date {
    Date {
        year: (digit_val(s[0]) * 1000 + digit_val(s[1]) * 100 + digit_val(s[2]) * 10 + digit_val(
            s[3],
        )) as u32,
        month: (digit_val(s[5]) * 10 + digit_val(s[6])) as u8,
        day: (digit_val(s[8]) * 10 + digit_val(s[9])) as u8,
    }
}

/// A character sequence is a date string when it has the exact `YYYY-MM-DD`
/// shape and encodes a well-formed date.
pub open spec fn is_date_seq(s: Seq<char>) -> bool {
    &&& s.len() == 10
    &&& digit_val(s[0]) >= 0
    &&& digit_val(s[1]) >= 0
    &&& digit_val(s[2]) >= 0
    &&& digit_val(s[3]) >= 0
    &&& s[4] == '-'
    &&& digit_val(s[5]) >= 0
    &&& digit_val(s[6]) >= 0
    &&& s[7] == '-'
    &&& digit_val(s[8]) >= 0
    &&& digit_val(s[9]) >= 0
    &&& seq_date(s).wf()
}

/// Decimal reconstruction: four digits determine the number they spell.
proof fn lemma_four_digits(a: int, b: int, c: int, e: int)
    requires
        0 <= a < 10,
        0 <= b < 10,
        0 <= c < 10,
        0 <= e < 10,
    ensures
        (a * 1000 + b * 100 + c * 10 + e) / 1000 % 10 == a,
        (a * 1000 + b * 100 + c * 10 + e) / 100 % 10 == b,
        (a * 1000 + b * 100 + c * 10 + e) / 10 % 10 == c,
        (a * 1000 + b * 100 + c * 10 + e) % 10 == e,
{
    let n = a * 1000 + b * 100 + c * 10 + e;
    assert(n / 1000 % 10 == a && n / 100 % 10 == b && n / 10 % 10 == c && n % 10 == e)
        by (nonlinear_arith)
        requires
            0 <= a < 10,
            0 <= b < 10,
            0 <= c < 10,
            0 <= e < 10,
            n == a * 1000 + b * 100 + c * 10 + e,
    ;
}

/// Two digits determine the number they spell.
proof fn lemma_two_digits(c: int, e: int)
    requires
        0 <= c < 10,
        0 <= e < 10,
    ensures
        (c * 10 + e) / 10 == c,
        (c * 10 + e) % 10 == e,
{
    assert((c * 10 + e) / 10 == c && (c * 10 + e) % 10 == e) by (nonlinear_arith)
        requires
            0 <= c < 10,
            0 <= e < 10,
    ;
}

/// Digit characters decode to the digit they encode.
proof fn lemma_digit_round_trip(v: int)
    requires
        0 <= v < 10,
    ensures
        digit_val(digit_char(v)) == v,
{
}

/// Formatting and parsing are inverse: the text form of a well-formed date is
/// a date string that encodes that date back.
pub proof fn lemma_date_string_round_trip(d: Date)
    requires
        d.wf(),
    ensures
        is_date_seq(date_str_spec(d)),
        seq_date(date_str_spec(d)) == d,
{
    let y = d.year as int;
    let m = d.month as int;
    let dd = d.day as int;
    lemma_four_digits(y / 1000 % 10, y / 100 % 10, y / 10 % 10, y % 10);
    assert(y == y / 1000 % 10 * 1000 + y / 100 % 10 * 100 + y / 10 % 10 * 10 + y % 10)
        by (nonlinear_arith)
        requires
            1000 <= y < 10000,
    ;
    assert(m == m / 10 * 10 + m % 10) by (nonlinear_arith)
        requires
            0 < m < 100,
    ;
    assert(dd == dd / 10 * 10 + dd % 10) by (nonlinear_arith)
        requires
            0 < dd < 100,
    ;
    lemma_digit_round_trip(y / 1000 % 10);
    lemma_digit_round_trip(y / 100 % 10);
    lemma_digit_round_trip(y / 10 % 10);
    lemma_digit_round_trip(y % 10);
    lemma_digit_round_trip(m / 10);
    lemma_digit_round_trip(m % 10);
    lemma_digit_round_trip(dd / 10);
    lemma_digit_round_trip(dd % 10);
}

/// The decimal digit character of a value below ten.
fn digit_to_char(v: u32) -> (c: char)
    requires
        v < 10,
    ensures
        c == digit_char(v as int),
{
    if v == 0 {
        '0'
    } else if v == 1 {
        '1'
    } else if v == 2 {
        '2'
    } else if v == 3 {
        '3'
    } else if v == 4 {
        '4'
    } else if v == 5 {
        '5'
    } else if v == 6 {
        '6'
    } else if v == 7 {
        '7'
    } else if v == 8 {
        '8'
    } else {
        '9'
    }
}

/// The value of a decimal digit character, if it is one.
fn digit_of(c: char) -> (r: Option<u32>)
    ensures
        r matches Some(v) ==> v == digit_val(c),
        r is Some <==> digit_val(c) >= 0,
{
    if c == '0' {
        Some(0)
    } else if c == '1' {
        Some(1)
    } else if c == '2' {
        Some(2)
    } else if c == '3' {
        Some(3)
    } else if c == '4' {
        Some(4)
    } else if c == '5' {
        Some(5)
    } else if c == '6' {
        Some(6)
    } else if c == '7' {
        Some(7)
    } else if c == '8' {
        Some(8)
    } else if c == '9' {
        Some(9)
    } else {
        None
    }
}

/// Formats a date as `YYYY-MM-DD`.
pub fn date_string(d: &Date) -> (r: String)
    requires
        d.wf(),
    ensures
        r@ == date_str_spec(*d),
{
    let mut v: Vec<char> = Vec::new();
    v.push(digit_to_char(d.year / 1000 % 10));
    v.push(digit_to_char(d.year / 100 % 10));
    v.push(digit_to_char(d.year / 10 % 10));
    v.push(digit_to_char(d.year % 10));
    v.push('-');
    v.push(digit_to_char(d.month as u32 / 10));
    v.push(digit_to_char(d.month as u32 % 10));
    v.push('-');
    v.push(digit_to_char(d.day as u32 / 10));
    v.push(digit_to_char(d.day as u32 % 10));
    proof {
        assert(v@ =~= date_str_spec(*d));
    }
    string_from_chars(&v)
}

/// Parses an unambiguous `YYYY-MM-DD` date string; any deviation from that
/// format, and any value that is not a real calendar day in the supported
/// range, is a format error.
pub fn parse_date(s: &str) -> (r: Result<Date, Error>)
    ensures
        r matches Ok(d) ==> d.wf() && d == seq_date(s@) && is_date_seq(s@),
        r is Ok <==> is_date_seq(s@),
        r matches Err(e) ==> e.kind == ErrorKind::Format,
{
    if s.unicode_len() != 10 {
        return Err(Error::new(ErrorKind::Format, String::from_str("date string must be YYYY-MM-DD")));
    }
    let c0 = digit_of(s.get_char(0));
    let c1 = digit_of(s.get_char(1));
    let c2 = digit_of(s.get_char(2));
    let c3 = digit_of(s.get_char(3));
    let c5 = digit_of(s.get_char(5));
    let c6 = digit_of(s.get_char(6));
    let c8 = digit_of(s.get_char(8));
    let c9 = digit_of(s.get_char(9));
    if s.get_char(4) != '-' || s.get_char(7) != '-' {
        return Err(Error::new(ErrorKind::Format, String::from_str("date string must be YYYY-MM-DD")));
    }
    match (c0, c1, c2, c3, c5, c6, c8, c9) {
        (
            Some(d0),
            Some(d1),
            Some(d2),
            Some(d3),
            Some(d5),
            Some(d6),
            Some(d8),
            Some(d9),
        ) => {
            let year: u32 = d0 * 1000 + d1 * 100 + d2 * 10 + d3;
            let month: u8 = (d5 * 10 + d6) as u8;
            let day: u8 = (d8 * 10 + d9) as u8;
            let d = Date { year, month, day };
            proof {
                assert(d == seq_date(s@));
            }
            if year < MIN_YEAR || month < 1 || month > 12 || day < 1 {
                return Err(Error::new(ErrorKind::Format, String::from_str("no such calendar date")));
            }
            if day > days_in_month(year, month) {
                return Err(Error::new(ErrorKind::Format, String::from_str("no such calendar date")));
            }
            Ok(d)
        },
        _ => Err(Error::new(ErrorKind::Format, String::from_str("date string must be YYYY-MM-DD"))),
    }
}

} // verus!
