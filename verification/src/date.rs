//! Calendar dates as plain year/month/day values, with ISO rendering and
//! parsing. The current date is obtained once, through a trusted call into
//! chrono, and validated here.

use vstd::prelude::*;
use chrono::Datelike;
use crate::text::{digit_char, digit_char_of, digit_of, is_digit, digit_val};

verus! {

#[derive(Clone, Copy, PartialEq, Eq, Structural, Debug)]
pub struct Date {
    pub year: u16,
    pub month: u8,
    pub day: u8,
}

pub open spec fn spec_is_leap_year(y: int) -> bool {
    y % 4 == 0 && (y % 100 != 0 || y % 400 == 0)
}

pub open spec fn spec_days_in_month(y: int, m: int) -> int {
    if m == 2 {
        if spec_is_leap_year(y) {
            29
        } else {
            28
        }
    } else if m == 4 || m == 6 || m == 9 || m == 11 {
        30
    } else {
        31
    }
}

pub open spec fn date_valid(d: Date) -> bool {
    d.year <= 9999 && 1 <= d.month <= 12 && 1 <= d.day <= spec_days_in_month(
        d.year as int,
        d.month as int,
    )
}

pub fn days_in_month(year: u16, month: u8) -> (r: u8)
    requires
        1 <= month <= 12,
    ensures
        r == spec_days_in_month(year as int, month as int),
{
    if month == 2 {
        if year % 4 == 0 && (year % 100 != 0 || year % 400 == 0) {
            29
        } else {
            28
        }
    } else if month == 4 || month == 6 || month == 9 || month == 11 {
        30
    } else {
        31
    }
}

impl Date {
    pub open spec fn valid(self) -> bool {
        date_valid(self)
    }

    /// Builds a date after checking that year, month and day name a real
    /// calendar day (with the year at most four digits wide).
    pub fn from_ymd(year: u16, month: u8, day: u8) -> (r: Option<Date>)
        ensures
            ({
                let d = Date { year, month, day };
                if date_valid(d) {
                    r == Some(d)
                } else {
                    r is None
                }
            }),
    {
        if year <= 9999 && 1 <= month && month <= 12 && 1 <= day && day <= days_in_month(
            year,
            month,
        ) {
            Some(Date { year, month, day })
        } else {
            None
        }
    }

    pub fn is_valid(&self) -> (r: bool)
        ensures
            r == date_valid(*self),
    {
        self.year <= 9999 && 1 <= self.month && self.month <= 12 && 1 <= self.day
            && self.day <= days_in_month(self.year, self.month)
    }
}

/// Two-digit zero-padded decimal rendering.
pub open spec fn pad2(n: int) -> Seq<char> {
    seq![digit_char((n / 10) % 10), digit_char(n % 10)]
}

/// Four-digit zero-padded decimal rendering.
pub open spec fn pad4(n: int) -> Seq<char> {
    seq![
        digit_char((n / 1000) % 10),
        digit_char((n / 100) % 10),
        digit_char((n / 10) % 10),
        digit_char(n % 10),
    ]
}

/// The ISO rendering of a date: four-digit year, two-digit month and day,
/// separated by dashes.
pub open spec fn date_chars(d: Date) -> Seq<char> {
    pad4(d.year as int) + seq!['-'] + pad2(d.month as int) + seq!['-'] + pad2(d.day as int)
}

pub fn push_date(out: &mut Vec<char>, d: Date)
    requires
        date_valid(d),
    ensures
        final(out)@ == old(out)@ + date_chars(d),
{
    out.push(digit_char_of(((d.year / 1000) % 10) as u8));
    out.push(digit_char_of(((d.year / 100) % 10) as u8));
    out.push(digit_char_of(((d.year / 10) % 10) as u8));
    out.push(digit_char_of((d.year % 10) as u8));
    out.push('-');
    out.push(digit_char_of((d.month / 10) % 10));
    out.push(digit_char_of(d.month % 10));
    out.push('-');
    out.push(digit_char_of((d.day / 10) % 10));
    out.push(digit_char_of(d.day % 10));
    proof {
        assert(final(out)@ =~= old(out)@ + date_chars(d));
    }
}

/// What a date field of a persisted record must look like: exactly the ISO
/// rendering above, naming a real calendar day.
pub open spec fn date_of_chars(s: Seq<char>) -> Option<Date> {
    if s.len() == 10 && s[4] == '-' && s[7] == '-' && is_digit(s[0]) && is_digit(s[1]) && is_digit(
        s[2],
    ) && is_digit(s[3]) && is_digit(s[5]) && is_digit(s[6]) && is_digit(s[8]) && is_digit(s[9]) {
        let y = digit_val(s[0]) * 1000 + digit_val(s[1]) * 100 + digit_val(s[2]) * 10 + digit_val(
            s[3],
        );
        let m = digit_val(s[5]) * 10 + digit_val(s[6]);
        let dd = digit_val(s[8]) * 10 + digit_val(s[9]);
        let d = Date { year: y as u16, month: m as u8, day: dd as u8 };
        if 1 <= m <= 12 && 1 <= dd && dd <= spec_days_in_month(y, m) {
            Some(d)
        } else {
            None
        }
    } else {
        None
    }
}

/// Parses the characters between `from` and `to` as an ISO date.
pub fn parse_date(v: &Vec<char>, from: usize, to: usize) -> (r: Option<Date>)
    requires
        from <= to <= v@.len(),
    ensures
        r == date_of_chars(v@.subrange(from as int, to as int)),
{
    let ghost s = v@.subrange(from as int, to as int);
    if to - from != 10 {
        return None;
    }
    if !(v[from + 4] == '-' && v[from + 7] == '-') {
        return None;
    }
    let d0 = digit_of(v[from]);
    let d1 = digit_of(v[from + 1]);
    let d2 = digit_of(v[from + 2]);
    let d3 = digit_of(v[from + 3]);
    let d5 = digit_of(v[from + 5]);
    let d6 = digit_of(v[from + 6]);
    let d8 = digit_of(v[from + 8]);
    let d9 = digit_of(v[from + 9]);
    match (d0, d1, d2, d3, d5, d6, d8, d9) {
        (
            Some(y0),
            Some(y1),
            Some(y2),
            Some(y3),
            Some(m0),
            Some(m1),
            Some(a0),
            Some(a1),
        ) => {
            let y: u16 = y0 as u16 * 1000 + y1 as u16 * 100 + y2 as u16 * 10 + y3 as u16;
            let m: u8 = m0 * 10 + m1;
            let dd: u8 = a0 * 10 + a1;
            if 1 <= m && m <= 12 && 1 <= dd && dd <= days_in_month(y, m) {
                Some(Date { year: y, month: m, day: dd })
            } else {
                None
            }
        },
        _ => None,
    }
}

proof fn lemma_digit_char_val(x: int)
    requires
        0 <= x <= 9,
    ensures
        is_digit(digit_char(x)),
        digit_val(digit_char(x)) == x,
{
}

/// Rendering a valid date and reading it back gives the same date.
pub proof fn lemma_date_round_trip(d: Date)
    requires
        date_valid(d),
    ensures
        date_of_chars(date_chars(d)) == Some(d),
{
    let s = date_chars(d);
    assert(s.len() == 10);
    let y = d.year as int;
    let m = d.month as int;
    let dd = d.day as int;
    lemma_digit_char_val((y / 1000) % 10);
    lemma_digit_char_val((y / 100) % 10);
    lemma_digit_char_val((y / 10) % 10);
    lemma_digit_char_val(y % 10);
    lemma_digit_char_val((m / 10) % 10);
    lemma_digit_char_val(m % 10);
    lemma_digit_char_val((dd / 10) % 10);
    lemma_digit_char_val(dd % 10);
    assert(s[0] == digit_char((y / 1000) % 10));
    assert(s[1] == digit_char((y / 100) % 10));
    assert(s[2] == digit_char((y / 10) % 10));
    assert(s[3] == digit_char(y % 10));
    assert(s[4] == '-');
    assert(s[5] == digit_char((m / 10) % 10));
    assert(s[6] == digit_char(m % 10));
    assert(s[7] == '-');
    assert(s[8] == digit_char((dd / 10) % 10));
    assert(s[9] == digit_char(dd % 10));
    assert(((y / 1000) % 10) * 1000 + ((y / 100) % 10) * 100 + ((y / 10) % 10) * 10 + (y % 10)
        == y) by (nonlinear_arith)
        requires
            0 <= y <= 9999,
    ;
    assert(((m / 10) % 10) * 10 + (m % 10) == m) by (nonlinear_arith)
        requires
            0 <= m <= 12,
    ;
    assert(((dd / 10) % 10) * 10 + (dd % 10) == dd) by (nonlinear_arith)
        requires
            0 <= dd <= 31,
    ;
    assert(digit_val(s[0]) * 1000 + digit_val(s[1]) * 100 + digit_val(s[2]) * 10 + digit_val(s[3])
        == y);
    assert(digit_val(s[5]) * 10 + digit_val(s[6]) == m);
    assert(digit_val(s[8]) * 10 + digit_val(s[9]) == dd);
}

/// Relies on `chrono::Local::now` and chrono's `Datelike` accessors `year`,
/// `month` and `day`: the current local calendar date, with the month between
/// 1 and 12 and the day of the month between 1 and 31.
#[verifier::external_body]
fn today_ymd() -> (r: (i32, u32, u32))
    ensures
        1 <= r.1 <= 12,
        1 <= r.2 <= 31,
{
    let d = chrono::Local::now().naive_local().date();
    (d.year(), d.month(), d.day())
}

/// The current local date. Falls back to the first day of year 2000 in the
/// (unreachable before the year 10000) case that the clock's year does not
/// fit four digits.
pub fn current_date() -> (d: Date)
    ensures
        date_valid(d),
{
    let (y, m, dd) = today_ymd();
    if 0 <= y && y <= 9999 {
        match Date::from_ymd(y as u16, m as u8, dd as u8) {
            Some(d) => d,
            None => Date { year: 2000, month: 1, day: 1 },
        }
    } else {
        Date { year: 2000, month: 1, day: 1 }
    }
}

} // verus!
