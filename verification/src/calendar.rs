//! Calendar dates: which exist, how they are written, which weekday they
//! fall on, and how days are counted. Weekdays and day counts come from
//! `chrono`.

use vstd::prelude::*;
use chrono::Datelike;
use crate::text::{bytes_le, lemma_bytes_le_same, lemma_first_difference, text_le};
use vstd::string::{StrSliceExecFns, StringExecFns};

verus! {

/// A calendar date. It is valid if it names a day of the Gregorian calendar
/// in the years 1 to 9999.
#[derive(Clone, Copy, Debug, PartialEq, Eq, Structural)]
pub struct Date {
    pub year: i32,
    pub month: u32,
    pub day: u32,
}

/// Whether the year `y` has a 29th of February.
pub open spec fn is_leap_year(y: int) -> bool {
    y % 4 == 0 && (y % 100 != 0 || y % 400 == 0)
}

/// The number of days of month `m` in year `y`; 0 if there is no such month.
pub open spec fn days_in_month(y: int, m: int) -> int {
    if m == 1 || m == 3 || m == 5 || m == 7 || m == 8 || m == 10 || m == 12 {
        31
    } else if m == 4 || m == 6 || m == 9 || m == 11 {
        30
    } else if m == 2 {
        if is_leap_year(y) {
            29
        } else {
            28
        }
    } else {
        0
    }
}

/// Whether year, month and day name a day that `chrono` has a date for: a
/// day of the Gregorian calendar, carried back before its introduction, in
/// the years -262143 to 262142.
pub open spec fn in_calendar(y: int, m: int, d: int) -> bool {
    -262143 <= y <= 262142 && 1 <= m <= 12 && 1 <= d <= days_in_month(y, m)
}

/// Whether year, month and day name a day of the years 1 to 9999.
pub open spec fn valid_ymd(y: int, m: int, d: int) -> bool {
    1 <= y <= 9999 && 1 <= m <= 12 && 1 <= d <= days_in_month(y, m)
}

/// The character of a decimal digit.
#[verifier::opaque]
pub open spec fn digit(n: int) -> char {
    if n == 0 {
        '0'
    } else if n == 1 {
        '1'
    } else if n == 2 {
        '2'
    } else if n == 3 {
        '3'
    } else if n == 4 {
        '4'
    } else if n == 5 {
        '5'
    } else if n == 6 {
        '6'
    } else if n == 7 {
        '7'
    } else if n == 8 {
        '8'
    } else {
        '9'
    }
}

/// A date written as `YYYY-MM-DD`.
pub open spec fn ymd_text(y: int, m: int, d: int) -> Seq<char> {
    seq![
        digit(y / 1000),
        digit(y / 100 % 10),
        digit(y / 10 % 10),
        digit(y % 10),
        '-',
        digit(m / 10),
        digit(m % 10),
        '-',
        digit(d / 10),
        digit(d % 10),
    ]
}

/// The weekday of a date, Monday = 1 to Sunday = 7, as `chrono` numbers it.
pub uninterp spec fn weekday_number(y: int, m: int, d: int) -> int;

/// The number of a date in `chrono`'s count of days, in which the first of
/// January of the year 1 is day 1.
pub uninterp spec fn day_number(y: int, m: int, d: int) -> int;

/// Year, month and day of the date that `chrono` gives for a day number, if
/// it has one.
pub uninterp spec fn civil_of_day(n: int) -> Option<(int, int, int)>;

/// Calls `NaiveDate::from_ymd_opt`, then `weekday` and
/// `Weekday::number_from_monday`. The contract names the result and claims
/// that it lies between 1 and 7, as the table in `chrono`'s documentation
/// shows. Days that do not exist and years out of `chrono`'s range, for
/// which `from_ymd_opt` gives nothing, are left out.
#[verifier::external_body]
pub fn weekday_index_for_date(y: i32, m: u32, d: u32) -> (r: u32)
    requires
        in_calendar(y as int, m as int, d as int),
    ensures
        r == weekday_number(y as int, m as int, d as int),
        1 <= r <= 7,
{
    chrono::NaiveDate::from_ymd_opt(y, m, d).unwrap().weekday().number_from_monday()
}

/// Calls `NaiveDate::from_ymd_opt`, then `Datelike::num_days_from_ce`. The
/// contract names the result, and claims that the date is found again from
/// its number: `from_num_days_from_ce_opt` counts the days of the same
/// calendar from the same day 1. Days that do not exist and years out of
/// `chrono`'s range are left out.
#[verifier::external_body]
pub(crate) fn days_from_ce(y: i32, m: u32, d: u32) -> (r: i32)
    requires
        in_calendar(y as int, m as int, d as int),
    ensures
        r == day_number(y as int, m as int, d as int),
        civil_of_day(r as int) == Some((y as int, m as int, d as int)),
{
    chrono::NaiveDate::from_ymd_opt(y, m, d).unwrap().num_days_from_ce()
}

/// Calls `NaiveDate::from_num_days_from_ce_opt` and reads year, month and
/// day of the date it gives. The contract names the result, and claims that
/// the date it gives is a day of the calendar within `chrono`'s range and
/// has the number it was made from: both functions count the days of the
/// same calendar from the same day 1.
#[verifier::external_body]
pub(crate) fn date_of_day(n: i32) -> (r: Option<(i32, u32, u32)>)
    ensures
        match r {
            Some(t) => civil_of_day(n as int) == Some((t.0 as int, t.1 as int, t.2 as int))
                && day_number(t.0 as int, t.1 as int, t.2 as int) == n && in_calendar(
                t.0 as int,
                t.1 as int,
                t.2 as int,
            ),
            None => civil_of_day(n as int) is None,
        },
{
    chrono::NaiveDate::from_num_days_from_ce_opt(n).map(|d| (d.year(), d.month(), d.day()))
}

/// The text of one decimal digit.
#[verifier::rlimit(60)]
fn digit_text(k: u32) -> (r: &'static str)
    requires
        k <= 9,
    ensures
        r@ == seq![digit(k as int)],
{
    proof {
        reveal(digit);
        reveal_strlit("0");
        reveal_strlit("1");
        reveal_strlit("2");
        reveal_strlit("3");
        reveal_strlit("4");
        reveal_strlit("5");
        reveal_strlit("6");
        reveal_strlit("7");
        reveal_strlit("8");
        reveal_strlit("9");
    }
    let r = if k == 0 {
        "0"
    } else if k == 1 {
        "1"
    } else if k == 2 {
        "2"
    } else if k == 3 {
        "3"
    } else if k == 4 {
        "4"
    } else if k == 5 {
        "5"
    } else if k == 6 {
        "6"
    } else if k == 7 {
        "7"
    } else if k == 8 {
        "8"
    } else {
        "9"
    };
    assert(r@ =~= seq![digit(k as int)]);
    r
}

/// Year, month and day written as `YYYY-MM-DD`, each padded with zeros.
#[verifier::rlimit(60)]
pub fn fmt_date_ymd(ymd: &(i32, u32, u32)) -> (r: String)
    requires
        0 <= ymd.0 <= 9999,
        ymd.1 <= 99,
        ymd.2 <= 99,
    ensures
        r@ == ymd_text(ymd.0 as int, ymd.1 as int, ymd.2 as int),
{
    let y = ymd.0 as u32;
    let m = ymd.1;
    let d = ymd.2;
    proof {
        reveal_strlit("-");
        lemma_four_digits(y as int);
        lemma_four_digits(m as int);
        lemma_four_digits(d as int);
    }
    let mut r = String::from_str(digit_text(y / 1000));
    r.append(digit_text(y / 100 % 10));
    r.append(digit_text(y / 10 % 10));
    r.append(digit_text(y % 10));
    r.append("-");
    r.append(digit_text(m / 10));
    r.append(digit_text(m % 10));
    r.append("-");
    r.append(digit_text(d / 10));
    r.append(digit_text(d % 10));
    assert(r@ =~= ymd_text(ymd.0 as int, ymd.1 as int, ymd.2 as int));
    r
}

impl Date {
    /// Whether the date exists.
    pub open spec fn valid(self) -> bool {
        valid_ymd(self.year as int, self.month as int, self.day as int)
    }

    /// Whether `self` is `other` or an earlier date.
    pub open spec fn not_after(self, other: Date) -> bool {
        self.year < other.year || (self.year == other.year && (self.month < other.month || (
        self.month == other.month && self.day <= other.day)))
    }

    /// The date written as `YYYY-MM-DD`.
    pub open spec fn text(self) -> Seq<char> {
        ymd_text(self.year as int, self.month as int, self.day as int)
    }

    /// The weekday of the date, Monday = 1 to Sunday = 7.
    pub open spec fn weekday(self) -> int {
        weekday_number(self.year as int, self.month as int, self.day as int)
    }

    /// The number of the date in the count of days.
    pub open spec fn number(self) -> int {
        day_number(self.year as int, self.month as int, self.day as int)
    }

    /// The number that stands for the date in the jitter.
    pub open spec fn stamp(self) -> u64 {
        let y: u64 = if self.year >= 0 {
            self.year as u64
        } else {
            0
        };
        (y << 32) ^ ((self.month as u64) << 16) ^ (self.day as u64)
    }

    /// The valid date with the day number `n`, if there is one.
    pub open spec fn of_number(n: int) -> Option<Date> {
        match civil_of_day(n) {
            Some(t) => if valid_ymd(t.0, t.1, t.2) {
                Some(Date { year: t.0 as i32, month: t.1 as u32, day: t.2 as u32 })
            } else {
                None
            },
            None => None,
        }
    }

    /// Whether the date exists.
    pub fn is_valid(&self) -> (r: bool)
        ensures
            r == self.valid(),
    {
        if self.year < 1 || self.year > 9999 || self.month < 1 || self.month > 12 || self.day < 1 {
            return false;
        }
        let last = month_start_end(self.year, self.month);
        self.day <= last.2
    }

    /// Whether `self` is `other` or an earlier date.
    pub fn is_not_after(&self, other: &Date) -> (r: bool)
        ensures
            r == self.not_after(*other),
    {
        self.year < other.year || (self.year == other.year && (self.month < other.month || (
        self.month == other.month && self.day <= other.day)))
    }

    /// The date written as `YYYY-MM-DD`; `None` if the date does not exist.
    pub fn to_text(&self) -> (r: Option<String>)
        ensures
            self.valid() ==> r is Some && r->0@ == self.text(),
            !self.valid() ==> r is None,
    {
        if self.is_valid() {
            Some(fmt_date_ymd(&(self.year, self.month, self.day)))
        } else {
            None
        }
    }

    /// The weekday of the date, Monday = 1 to Sunday = 7; `None` if the date
    /// does not exist.
    pub fn weekday_index(&self) -> (r: Option<u32>)
        ensures
            self.valid() ==> r is Some && r->0 == self.weekday() && 1 <= r->0 <= 7,
            !self.valid() ==> r is None,
    {
        if self.is_valid() {
            Some(weekday_index_for_date(self.year, self.month, self.day))
        } else {
            None
        }
    }

    /// The number of the date in the count of days; `None` if the date does
    /// not exist.
    pub fn day_index(&self) -> (r: Option<i32>)
        ensures
            self.valid() ==> r is Some && r->0 == self.number() && Date::of_number(r->0 as int)
                == Some(*self),
            !self.valid() ==> r is None,
    {
        if self.is_valid() {
            Some(days_from_ce(self.year, self.month, self.day))
        } else {
            None
        }
    }

    /// The valid date with the day number `n`, if there is one.
    pub fn from_day_index(n: i32) -> (r: Option<Date>)
        ensures
            r == Date::of_number(n as int),
            r matches Some(d) ==> d.valid() && d.number() == n,
    {
        match date_of_day(n) {
            Some(t) => {
                let d = Date { year: t.0, month: t.1, day: t.2 };
                if d.is_valid() {
                    Some(d)
                } else {
                    None
                }
            },
            None => None,
        }
    }

    /// The number that stands for the date in the jitter.
    pub fn day_stamp(&self) -> (r: u64)
        ensures
            r == self.stamp(),
    {
        let y: u64 = if self.year >= 0 {
            self.year as u64
        } else {
            0
        };
        (y << 32) ^ ((self.month as u64) << 16) ^ (self.day as u64)
    }
}

/// The digit that a character is, if it is one.
#[verifier::rlimit(60)]
pub fn digit_value(c: char) -> (r: Option<u32>)
    ensures
        match r {
            Some(k) => k <= 9 && digit(k as int) == c,
            None => forall|k: int| digit(k) != c,
        },
{
    reveal(digit);
    if c == '0' {
        Some(0)
    } else if c == '1' {
        Some(1)
    } else if c == '2' {
        Some(2)
    } else if c == '3' {
        Some(3)
    } else if c == '4' {
        Some(4)
    } else if c == '5' {
        Some(5)
    } else if c == '6' {
        Some(6)
    } else if c == '7' {
        Some(7)
    } else if c == '8' {
        Some(8)
    } else if c == '9' {
        Some(9)
    } else {
        None
    }
}

/// Different digits have different characters, and none is a hyphen.
pub proof fn lemma_digits_differ(a: int, b: int)
    requires
        0 <= a <= 9,
        0 <= b <= 9,
    ensures
        digit(a) == digit(b) ==> a == b,
        digit(a) != '-',
{
    reveal(digit);
}

/// The four digits of a number below 10000.
pub proof fn lemma_four_digits(y: int)
    requires
        0 <= y <= 9999,
    ensures
        0 <= y / 1000 <= 9,
        0 <= y / 100 % 10 <= 9,
        0 <= y / 10 % 10 <= 9,
        0 <= y % 10 <= 9,
        y == 1000 * (y / 1000) + 100 * (y / 100 % 10) + 10 * (y / 10 % 10) + y % 10,
{
    let p = y / 10;
    let q = p / 10;
    assert(y == 10 * p + y % 10);
    assert(p == 10 * q + p % 10);
    assert(q == 10 * (q / 10) + q % 10);
    assert(y / 100 == q);
    assert(y / 1000 == q / 10);
}

/// The digits of a number that is made of four digits.
pub proof fn lemma_number_of_digits(a: int, b: int, c: int, e: int)
    requires
        0 <= a <= 9 && 0 <= b <= 9 && 0 <= c <= 9 && 0 <= e <= 9,
    ensures
        (1000 * a + 100 * b + 10 * c + e) / 1000 == a,
        (1000 * a + 100 * b + 10 * c + e) / 100 % 10 == b,
        (1000 * a + 100 * b + 10 * c + e) / 10 % 10 == c,
        (1000 * a + 100 * b + 10 * c + e) % 10 == e,
{
    let y = 1000 * a + 100 * b + 10 * c + e;
    let p = 100 * a + 10 * b + c;
    let q = 10 * a + b;
    assert(y == 10 * p + e);
    assert(y / 10 == p && y % 10 == e);
    assert(p == 10 * q + c);
    assert(p / 10 == q && p % 10 == c);
    assert(q / 10 == a && q % 10 == b);
    assert(y / 100 == q);
    assert(y / 1000 == a);
}

/// The digits of a valid date's text decide its year, month and day.
#[verifier::rlimit(60)]
pub proof fn lemma_text_decides(
    x: Date,
    a: int,
    b: int,
    c: int,
    e: int,
    f: int,
    g: int,
    h: int,
    i: int,
)
    requires
        x.valid(),
        0 <= a <= 9 && 0 <= b <= 9 && 0 <= c <= 9 && 0 <= e <= 9,
        0 <= f <= 9 && 0 <= g <= 9 && 0 <= h <= 9 && 0 <= i <= 9,
        x.text()[0] == digit(a) && x.text()[1] == digit(b) && x.text()[2] == digit(c)
            && x.text()[3] == digit(e),
        x.text()[5] == digit(f) && x.text()[6] == digit(g),
        x.text()[8] == digit(h) && x.text()[9] == digit(i),
    ensures
        x.year == 1000 * a + 100 * b + 10 * c + e,
        x.month == 10 * f + g,
        x.day == 10 * h + i,
{
    lemma_text_shape(x);
    let y = x.year as int;
    let m = x.month as int;
    let d = x.day as int;
    lemma_four_digits(y);
    lemma_four_digits(m);
    lemma_four_digits(d);
    lemma_digits_differ(y / 1000, a);
    lemma_digits_differ(y / 100 % 10, b);
    lemma_digits_differ(y / 10 % 10, c);
    lemma_digits_differ(y % 10, e);
    lemma_digits_differ(m / 10, f);
    lemma_digits_differ(m % 10, g);
    lemma_digits_differ(d / 10, h);
    lemma_digits_differ(d % 10, i);
}

/// The text of a date, from the digits of its year, month and day.
#[verifier::rlimit(60)]
pub proof fn lemma_text_of_digits(
    x: Date,
    a: int,
    b: int,
    c: int,
    e: int,
    f: int,
    g: int,
    h: int,
    i: int,
)
    requires
        0 <= a <= 9 && 0 <= b <= 9 && 0 <= c <= 9 && 0 <= e <= 9,
        0 <= f <= 9 && 0 <= g <= 9 && 0 <= h <= 9 && 0 <= i <= 9,
        x.year == 1000 * a + 100 * b + 10 * c + e,
        x.month == 10 * f + g,
        x.day == 10 * h + i,
    ensures
        x.text() == seq![
            digit(a),
            digit(b),
            digit(c),
            digit(e),
            '-',
            digit(f),
            digit(g),
            '-',
            digit(h),
            digit(i),
        ],
{
    lemma_number_of_digits(a, b, c, e);
    lemma_number_of_digits(0, 0, f, g);
    lemma_number_of_digits(0, 0, h, i);
    lemma_text_shape(x);
    assert(x.text() =~= seq![
        digit(a),
        digit(b),
        digit(c),
        digit(e),
        '-',
        digit(f),
        digit(g),
        '-',
        digit(h),
        digit(i),
    ]);
}

/// No date's text has anything but a digit at the places of its digits,
/// nor anything but a hyphen between them.
pub proof fn lemma_text_shape(x: Date)
    ensures
        x.text().len() == 10,
        x.text()[0] == digit(x.year as int / 1000),
        x.text()[1] == digit(x.year as int / 100 % 10),
        x.text()[2] == digit(x.year as int / 10 % 10),
        x.text()[3] == digit(x.year as int % 10),
        x.text()[4] == '-',
        x.text()[5] == digit(x.month as int / 10),
        x.text()[6] == digit(x.month as int % 10),
        x.text()[7] == '-',
        x.text()[8] == digit(x.day as int / 10),
        x.text()[9] == digit(x.day as int % 10),
{
}

/// Whether the year `y` has a 29th of February.
pub fn leap_year(y: i32) -> (r: bool)
    requires
        -262143 <= y <= 262142,
    ensures
        r == is_leap_year(y as int),
{
    // The rule repeats every 400 years, so the year is moved into the
    // positive numbers by a multiple of 400.
    let z: u32 = (y + 262400) as u32;
    assert((y + 262400) % 4 == (y as int) % 4);
    assert((y + 262400) % 100 == (y as int) % 100);
    assert((y + 262400) % 400 == (y as int) % 400);
    z % 4 == 0 && (z % 100 != 0 || z % 400 == 0)
}

/// The last day of a month, as year, month and day.
pub fn month_start_end(y: i32, m: u32) -> (r: (i32, u32, u32))
    requires
        -262143 <= y <= 262142,
        1 <= m <= 12,
    ensures
        r.0 == y,
        r.1 == m,
        r.2 == days_in_month(y as int, m as int),
{
    let last: u32 = if m == 2 {
        if leap_year(y) {
            29
        } else {
            28
        }
    } else if m == 4 || m == 6 || m == 9 || m == 11 {
        30
    } else {
        31
    };
    (y, m, last)
}

impl Date {
    /// The valid date that a text of the form `YYYY-MM-DD` names; `None`
    /// for every other text.
    #[verifier::rlimit(60)]
    pub fn from_text(s: &str) -> (r: Option<Date>)
        ensures
            match r {
                Some(d) => d.valid() && d.text() == s@,
                None => forall|d: Date| d.valid() ==> d.text() != s@,
            },
    {
        if s.unicode_len() != 10 {
            assert forall|d: Date| d.valid() implies d.text() != s@ by {
                lemma_text_shape(d);
            }
            return None;
        }
        let c0 = digit_value(s.get_char(0));
        let c1 = digit_value(s.get_char(1));
        let c2 = digit_value(s.get_char(2));
        let c3 = digit_value(s.get_char(3));
        let h4 = s.get_char(4);
        let c5 = digit_value(s.get_char(5));
        let c6 = digit_value(s.get_char(6));
        let h7 = s.get_char(7);
        let c8 = digit_value(s.get_char(8));
        let c9 = digit_value(s.get_char(9));
        if c0.is_none() || c1.is_none() || c2.is_none() || c3.is_none() || c5.is_none()
            || c6.is_none() || c8.is_none() || c9.is_none() || h4 != '-' || h7 != '-' {
            assert forall|d: Date| d.valid() implies d.text() != s@ by {
                lemma_text_shape(d);
            }
            return None;
        }
        let a = c0.unwrap();
        let b = c1.unwrap();
        let c = c2.unwrap();
        let e = c3.unwrap();
        let f = c5.unwrap();
        let g = c6.unwrap();
        let h = c8.unwrap();
        let i = c9.unwrap();
        let year: u32 = a * 1000 + b * 100 + c * 10 + e;
        let d = Date { year: year as i32, month: f * 10 + g, day: h * 10 + i };
        if d.is_valid() {
            proof {
                lemma_text_of_digits(
                    d,
                    a as int,
                    b as int,
                    c as int,
                    e as int,
                    f as int,
                    g as int,
                    h as int,
                    i as int,
                );
                assert(d.text() =~= s@);
            }
            Some(d)
        } else {
            assert forall|x: Date| x.valid() implies x.text() != s@ by {
                if x.text() == s@ {
                    lemma_text_decides(
                        x,
                        a as int,
                        b as int,
                        c as int,
                        e as int,
                        f as int,
                        g as int,
                        h as int,
                        i as int,
                    );
                    assert(x == d);
                }
            }
            None
        }
    }
}

/// The byte that a digit is written as.
pub proof fn lemma_digit_byte(k: int)
    requires
        0 <= k <= 9,
    ensures
        digit(k) as u8 == 48 + k,
        '\0' <= digit(k) <= '\u{7f}',
{
    reveal(digit);
}

/// The bytes of the text of a valid date.
#[verifier::rlimit(60)]
pub proof fn lemma_text_bytes(x: Date)
    requires
        x.valid(),
    ensures
        ({
            let b = vstd::utf8::encode_utf8(x.text());
            &&& b.len() == 10
            &&& b[0] == 48 + x.year as int / 1000
            &&& b[1] == 48 + x.year as int / 100 % 10
            &&& b[2] == 48 + x.year as int / 10 % 10
            &&& b[3] == 48 + x.year as int % 10
            &&& b[4] == 45
            &&& b[5] == 48 + x.month as int / 10
            &&& b[6] == 48 + x.month as int % 10
            &&& b[7] == 45
            &&& b[8] == 48 + x.day as int / 10
            &&& b[9] == 48 + x.day as int % 10
        }),
{
    let t = x.text();
    lemma_text_shape(x);
    lemma_four_digits(x.year as int);
    lemma_four_digits(x.month as int);
    lemma_four_digits(x.day as int);
    lemma_digit_byte(x.year as int / 1000);
    lemma_digit_byte(x.year as int / 100 % 10);
    lemma_digit_byte(x.year as int / 10 % 10);
    lemma_digit_byte(x.year as int % 10);
    lemma_digit_byte(x.month as int / 10);
    lemma_digit_byte(x.month as int % 10);
    lemma_digit_byte(x.day as int / 10);
    lemma_digit_byte(x.day as int % 10);
    assert('-' as u8 == 45);
    assert('\0' <= '-' <= '\u{7f}');
    assert(vstd::utf8::is_ascii_chars(t)) by {
        assert forall|i: int| 0 <= i < t.len() implies '\0' <= #[trigger] t[i] <= '\u{7f}' by {
            if i == 0 {
            } else if i == 1 {
            } else if i == 2 {
            } else if i == 3 {
            } else if i == 4 {
            } else if i == 5 {
            } else if i == 6 {
            } else if i == 7 {
            } else if i == 8 {
            } else {
                assert(i == 9);
            }
        }
    }
    vstd::utf8::is_ascii_chars_encode_utf8(t);
    let b = vstd::utf8::encode_utf8(t);
    assert(b[0] == t[0] as u8);
    assert(b[1] == t[1] as u8);
    assert(b[2] == t[2] as u8);
    assert(b[3] == t[3] as u8);
    assert(b[4] == t[4] as u8);
    assert(b[5] == t[5] as u8);
    assert(b[6] == t[6] as u8);
    assert(b[7] == t[7] as u8);
    assert(b[8] == t[8] as u8);
    assert(b[9] == t[9] as u8);
}

/// The order of the texts of two valid dates is the order of the dates.
#[verifier::rlimit(60)]
pub proof fn lemma_text_order(a: Date, b: Date)
    requires
        a.valid(),
        b.valid(),
    ensures
        text_le(a.text(), b.text()) == a.not_after(b),
{
    let x = vstd::utf8::encode_utf8(a.text());
    let y = vstd::utf8::encode_utf8(b.text());
    lemma_text_bytes(a);
    lemma_text_bytes(b);
    lemma_four_digits(a.year as int);
    lemma_four_digits(b.year as int);
    lemma_four_digits(a.month as int);
    lemma_four_digits(b.month as int);
    lemma_four_digits(a.day as int);
    lemma_four_digits(b.day as int);
    if x[0] != y[0] {
        lemma_first_difference(x, y, 0);
    } else if x[1] != y[1] {
        lemma_first_difference(x, y, 1);
    } else if x[2] != y[2] {
        lemma_first_difference(x, y, 2);
    } else if x[3] != y[3] {
        lemma_first_difference(x, y, 3);
    } else {
        assert(a.year == b.year);
        if x[5] != y[5] {
            lemma_first_difference(x, y, 5);
        } else if x[6] != y[6] {
            lemma_first_difference(x, y, 6);
        } else {
            assert(a.month == b.month);
            if x[8] != y[8] {
                lemma_first_difference(x, y, 8);
            } else if x[9] != y[9] {
                lemma_first_difference(x, y, 9);
            } else {
                assert(a.day == b.day);
                assert(x =~= y);
                lemma_bytes_le_same(x);
            }
        }
    }
}

} // verus!
