//! Calendar dates of invoices.
//!
//! An invoice identifier embeds its date as eight digits, `YYYYMMDD`. The
//! calendar itself is `chrono`'s; an [`InvoiceDate`] holds the three numbers of
//! a date that `chrono` accepts and whose year has four digits.

use vstd::prelude::*;
use chrono::Datelike;
use chrono::NaiveDate;
use crate::decimal::digit_of;
use crate::decimal::is_ascii_digit;
use crate::text::to_chars;

verus! {

/// `y` is a leap year of the proleptic Gregorian calendar.
pub open spec fn is_leap_year(y: int) -> bool {
    y % 4 == 0 && (y % 100 != 0 || y % 400 == 0)
}

/// The number of days of month `m` in year `y`.
pub open spec fn days_in_month(y: int, m: int) -> int {
    if m == 2 {
        if is_leap_year(y) {
            29
        } else {
            28
        }
    } else if m == 4 || m == 6 || m == 9 || m == 11 {
        30
    } else {
        31
    }
}

/// `y`, `m`, `d` name a day of the calendar in a year of four digits.
pub open spec fn valid_ymd(y: int, m: int, d: int) -> bool {
    &&& 0 <= y <= 9999
    &&& 1 <= m <= 12
    &&& 1 <= d <= days_in_month(y, m)
}

/// The character for the digit `d`.
pub open spec fn digit_char(d: int) -> char {
    if d == 0 {
        '0'
    } else if d == 1 {
        '1'
    } else if d == 2 {
        '2'
    } else if d == 3 {
        '3'
    } else if d == 4 {
        '4'
    } else if d == 5 {
        '5'
    } else if d == 6 {
        '6'
    } else if d == 7 {
        '7'
    } else if d == 8 {
        '8'
    } else {
        '9'
    }
}

/// The eight digits `YYYYMMDD` of a date.
pub open spec fn compact_text(y: int, m: int, d: int) -> Seq<char> {
    seq![
        digit_char(y / 1000),
        digit_char(y / 100 % 10),
        digit_char(y / 10 % 10),
        digit_char(y % 10),
        digit_char(m / 10),
        digit_char(m % 10),
        digit_char(d / 10),
        digit_char(d % 10),
    ]
}

/// `s` consists of exactly eight ASCII digits.
pub open spec fn is_eight_digits(s: Seq<char>) -> bool {
    s.len() == 8 && forall|i: int| 0 <= i < 8 ==> is_ascii_digit(#[trigger] s[i])
}

/// The year spelt by the first four of eight digits.
pub open spec fn year_of_digits(s: Seq<char>) -> int {
    (digit_of(s[0]) * 1000 + digit_of(s[1]) * 100 + digit_of(s[2]) * 10 + digit_of(s[3])) as int
}

/// The month spelt by the fifth and sixth of eight digits.
pub open spec fn month_of_digits(s: Seq<char>) -> int {
    (digit_of(s[4]) * 10 + digit_of(s[5])) as int
}

/// The day spelt by the last two of eight digits.
pub open spec fn day_of_digits(s: Seq<char>) -> int {
    (digit_of(s[6]) * 10 + digit_of(s[7])) as int
}

/// The date that `s` spells as `YYYYMMDD`, if it spells one.
pub open spec fn compact_date(s: Seq<char>) -> Option<(int, int, int)> {
    if is_eight_digits(s) && valid_ymd(year_of_digits(s), month_of_digits(s), day_of_digits(s)) {
        Some((year_of_digits(s), month_of_digits(s), day_of_digits(s)))
    } else {
        None
    }
}

/// `chrono::NaiveDate::parse_from_str` with the format `%Y%m%d`, on eight
/// ASCII digits. With that format `chrono` reads four digits as the year, two
/// as the month and two as the day, and accepts them exactly when they name a
/// day of the proleptic Gregorian calendar.
#[verifier::external_body]
fn chrono_parse_compact(text: &str) -> (r: Option<(u16, u8, u8)>)
    requires
        is_eight_digits(text@),
    ensures
        match r {
            Some((y, m, d)) => compact_date(text@) == Some((y as int, m as int, d as int)),
            None => compact_date(text@) is None,
        },
{
    match NaiveDate::parse_from_str(text, "%Y%m%d") {
        Ok(date) => Some((date.year() as u16, date.month() as u8, date.day() as u8)),
        Err(_) => None,
    }
}

/// `chrono::NaiveDate::format` with the format `%Y%m%d`, after
/// `chrono::NaiveDate::from_ymd_opt`. For a year of four digits `chrono`
/// writes the year, the month and the day zero-padded to four, two and two
/// digits.
#[verifier::external_body]
fn chrono_format_compact(year: u16, month: u8, day: u8) -> (r: String)
    requires
        valid_ymd(year as int, month as int, day as int),
    ensures
        r@ == compact_text(year as int, month as int, day as int),
{
    match NaiveDate::from_ymd_opt(year as i32, month as u32, day as u32) {
        Some(date) => date.format("%Y%m%d").to_string(),
        None => String::new(),
    }
}

/// A day of the calendar, in a year from 0 to 9999.
#[derive(Clone, Copy, Debug)]
pub struct InvoiceDate {
    year: u16,
    month: u8,
    day: u8,
}

impl View for InvoiceDate {
    type V = (int, int, int);

    /// Year, month and day.
    closed spec fn view(&self) -> (int, int, int) {
        (self.year as int, self.month as int, self.day as int)
    }
}

impl InvoiceDate {
    /// The three numbers name a day of the calendar.
    #[verifier::type_invariant]
    spec fn well_formed(self) -> bool {
        valid_ymd(self.year as int, self.month as int, self.day as int)
    }

    /// The date names a day of the calendar.
    pub open spec fn valid(self) -> bool {
        valid_ymd(self@.0, self@.1, self@.2)
    }

    /// The day `year`-`month`-`day`, if the calendar has it.
    pub fn new(year: u16, month: u8, day: u8) -> (r: Option<InvoiceDate>)
        ensures
            r is Some <==> valid_ymd(year as int, month as int, day as int),
            r matches Some(date) ==> date@ == (year as int, month as int, day as int)
                && date.valid(),
    {
        if year > 9999 || month < 1 || month > 12 || day < 1 {
            return None;
        }
        let leap = year % 4 == 0 && (year % 100 != 0 || year % 400 == 0);
        let len: u8 = if month == 2 {
            if leap {
                29
            } else {
                28
            }
        } else if month == 4 || month == 6 || month == 9 || month == 11 {
            30
        } else {
            31
        };
        if day > len {
            return None;
        }
        Some(InvoiceDate { year, month, day })
    }

    /// The year, from 0 to 9999.
    pub fn year(&self) -> (r: u16)
        ensures
            r == self@.0,
            self.valid(),
    {
        proof {
            use_type_invariant(self);
        }
        self.year
    }

    /// The month, from 1 to 12.
    pub fn month(&self) -> (r: u8)
        ensures
            r == self@.1,
            1 <= r <= 12,
            self.valid(),
    {
        proof {
            use_type_invariant(self);
        }
        self.month
    }

    /// The day of the month.
    pub fn day(&self) -> (r: u8)
        ensures
            r == self@.2,
            self.valid(),
    {
        proof {
            use_type_invariant(self);
        }
        self.day
    }

    /// The date as eight digits, `YYYYMMDD`.
    pub fn compact(&self) -> (r: String)
        ensures
            r@ == compact_text(self@.0, self@.1, self@.2),
            is_eight_digits(r@),
            compact_date(r@) == Some(self@),
    {
        proof {
            use_type_invariant(self);
            lemma_compact_round_trip(self.year as int, self.month as int, self.day as int);
        }
        chrono_format_compact(self.year, self.month, self.day)
    }

    /// Reads a date written as eight digits, `YYYYMMDD`.
    pub fn parse_compact(text: &str) -> (r: Option<InvoiceDate>)
        ensures
            match r {
                Some(date) => compact_date(text@) == Some(date@) && date.valid(),
                None => compact_date(text@) is None,
            },
    {
        let chars = to_chars(text);
        if chars.len() != 8 {
            return None;
        }
        let mut i: usize = 0;
        while i < 8
            invariant
                i <= 8,
                chars@ == text@,
                chars.len() == 8,
                forall|j: int| 0 <= j < i ==> is_ascii_digit(#[trigger] text@[j]),
            decreases 8 - i,
        {
            let c = chars[i];
            if !(c >= '0' && c <= '9') {
                return None;
            }
            i += 1;
        }
        match chrono_parse_compact(text) {
            Some((year, month, day)) => Some(InvoiceDate { year, month, day }),
            None => None,
        }
    }
}

/// A digit's character is an ASCII digit of that value.
pub proof fn lemma_digit_char(k: int)
    requires
        0 <= k <= 9,
    ensures
        is_ascii_digit(digit_char(k)),
        digit_of(digit_char(k)) == k,
{
}

/// The eight digits written for a date spell that date.
pub proof fn lemma_compact_round_trip(y: int, m: int, d: int)
    requires
        valid_ymd(y, m, d),
    ensures
        is_eight_digits(compact_text(y, m, d)),
        compact_date(compact_text(y, m, d)) == Some((y, m, d)),
{
    let s = compact_text(y, m, d);
    let y3 = y / 1000;
    let y2 = y / 100 % 10;
    let y1 = y / 10 % 10;
    let y0 = y % 10;
    let m1 = m / 10;
    let m0 = m % 10;
    let d1 = d / 10;
    let d0 = d % 10;
    assert(y3 * 1000 + y2 * 100 + y1 * 10 + y0 == y);
    assert(m1 * 10 + m0 == m);
    assert(d1 * 10 + d0 == d);
    lemma_digit_char(y3);
    lemma_digit_char(y2);
    lemma_digit_char(y1);
    lemma_digit_char(y0);
    lemma_digit_char(m1);
    lemma_digit_char(m0);
    lemma_digit_char(d1);
    lemma_digit_char(d0);
    assert(s.len() == 8);
    assert(s[0] == digit_char(y3) && s[1] == digit_char(y2) && s[2] == digit_char(y1) && s[3]
        == digit_char(y0));
    assert(s[4] == digit_char(m1) && s[5] == digit_char(m0) && s[6] == digit_char(d1) && s[7]
        == digit_char(d0));
    assert(year_of_digits(s) == y);
    assert(month_of_digits(s) == m);
    assert(day_of_digits(s) == d);
}

} // verus!
