//! UTC timestamps at second precision, and their wire format.
//!
//! The wire format is the RFC 3339 profile these documents use:
//! `YYYY-MM-DDTHH:MM:SSZ`, twenty characters, zero-padded fields, an explicit
//! `Z` designator. A `Timestamp` holds the six calendar fields as plain
//! integers; rendering and parsing are verified against the spec functions
//! below, and parsing round-trips rendering exactly.

use crate::xml::push_char;
use vstd::prelude::*;

verus! {

/// A UTC calendar time at second precision.
#[derive(Clone, Copy, Debug, PartialEq, Eq, Structural)]
pub struct Timestamp {
    pub year: u16,
    pub month: u8,
    pub day: u8,
    pub hour: u8,
    pub minute: u8,
    pub second: u8,
}

/// Whether `y` is a leap year of the Gregorian calendar.
pub open spec fn is_leap_year(y: int) -> bool {
    y % 4 == 0 && (y % 100 != 0 || y % 400 == 0)
}

/// How many days the month `m` of year `y` has.
pub open spec fn days_in_month(y: int, m: int) -> int {
    if m == 2 {
        if is_leap_year(y) {
            29
        } else {
            28
        }
    } else if m == 4 || m == 6 || m == 9 || m == 11 {
        30
    } else {
        31
    }
}

impl Timestamp {
    /// A well-formed timestamp: a date of the Gregorian calendar with a
    /// four-digit year, and a time of day.
    pub open spec fn well_formed(self) -> bool {
        self.year <= 9999 && 1 <= self.month <= 12 && 1 <= self.day
            && self.day <= days_in_month(self.year as int, self.month as int) && self.hour <= 23
            && self.minute <= 59 && self.second <= 59
    }
}

/// The decimal digit character for `d`.
pub open spec fn digit_char(d: int) -> char {
    if d == 0 {
        '0'
    } else if d == 1 {
        '1'
    } else if d == 2 {
        '2'
    } else if d == 3 {
        '3'
    } else if d == 4 {
        '4'
    } else if d == 5 {
        '5'
    } else if d == 6 {
        '6'
    } else if d == 7 {
        '7'
    } else if d == 8 {
        '8'
    } else {
        '9'
    }
}

/// Whether `c` is a decimal digit character.
pub open spec fn is_digit(c: char) -> bool {
    '0' <= c && c <= '9'
}

/// The value of the digit character `c`.
pub open spec fn digit_val(c: char) -> int {
    c as int - '0' as int
}

/// `n` in two zero-padded decimal digits.
pub open spec fn two_digits(n: int) -> Seq<char> {
    seq![digit_char(n / 10), digit_char(n % 10)]
}

/// `n` in four zero-padded decimal digits.
pub open spec fn four_digits(n: int) -> Seq<char> {
    seq![digit_char(n / 1000), digit_char(n / 100 % 10), digit_char(n / 10 % 10), digit_char(
        n % 10,
    )]
}

/// The wire text of a timestamp: `YYYY-MM-DDTHH:MM:SSZ`.
pub open spec fn timestamp_text(t: Timestamp) -> Seq<char> {
    four_digits(t.year as int) + seq!['-'] + two_digits(t.month as int) + seq!['-'] + two_digits(
        t.day as int,
    ) + seq!['T'] + two_digits(t.hour as int) + seq![':'] + two_digits(t.minute as int) + seq![':']
        + two_digits(t.second as int) + seq!['Z']
}

/// What parsing a timestamp yields: `Some` exactly on the twenty-character
/// wire form whose fields are a well-formed timestamp, `None` on everything
/// else.
pub open spec fn timestamp_parse(s: Seq<char>) -> Option<Timestamp> {
    if s.len() == 20 && s[4] == '-' && s[7] == '-' && s[10] == 'T' && s[13] == ':' && s[16] == ':'
        && s[19] == 'Z' && is_digit(s[0]) && is_digit(s[1]) && is_digit(s[2]) && is_digit(s[3])
        && is_digit(s[5]) && is_digit(s[6]) && is_digit(s[8]) && is_digit(s[9]) && is_digit(s[11])
        && is_digit(s[12]) && is_digit(s[14]) && is_digit(s[15]) && is_digit(s[17]) && is_digit(
        s[18],
    ) {
        let t = Timestamp {
            year: (digit_val(s[0]) * 1000 + digit_val(s[1]) * 100 + digit_val(s[2]) * 10
                + digit_val(s[3])) as u16,
            month: (digit_val(s[5]) * 10 + digit_val(s[6])) as u8,
            day: (digit_val(s[8]) * 10 + digit_val(s[9])) as u8,
            hour: (digit_val(s[11]) * 10 + digit_val(s[12])) as u8,
            minute: (digit_val(s[14]) * 10 + digit_val(s[15])) as u8,
            second: (digit_val(s[17]) * 10 + digit_val(s[18])) as u8,
        };
        if t.well_formed() {
            Some(t)
        } else {
            None
        }
    } else {
        None
    }
}

/// The digit character for a small machine integer.
fn digit_char_x(d: u8) -> (c: char)
    requires
        d < 10,
    ensures
        c == digit_char(d as int),
{
    match d {
        0 => '0',
        1 => '1',
        2 => '2',
        3 => '3',
        4 => '4',
        5 => '5',
        6 => '6',
        7 => '7',
        8 => '8',
        _ => '9',
    }
}

/// Appends `n` as two zero-padded digits.
fn push_two_digits(out: &mut String, n: u8)
    requires
        n < 100,
    ensures
        final(out)@ == old(out)@ + two_digits(n as int),
{
    push_char(out, digit_char_x(n / 10));
    push_char(out, digit_char_x(n % 10));
    assert(final(out)@ =~= old(out)@ + two_digits(n as int));
}

impl Timestamp {
    /// Renders the timestamp in its wire form, `YYYY-MM-DDTHH:MM:SSZ`.
    pub fn to_rfc3339(&self) -> (r: String)
        requires
            self.well_formed(),
        ensures
            r@ == timestamp_text(*self),
    {
        let mut out = String::new();
        let y = self.year;
        push_char(&mut out, digit_char_x((y / 1000) as u8));
        push_char(&mut out, digit_char_x((y / 100 % 10) as u8));
        push_char(&mut out, digit_char_x((y / 10 % 10) as u8));
        push_char(&mut out, digit_char_x((y % 10) as u8));
        push_char(&mut out, '-');
        push_two_digits(&mut out, self.month);
        push_char(&mut out, '-');
        push_two_digits(&mut out, self.day);
        push_char(&mut out, 'T');
        push_two_digits(&mut out, self.hour);
        push_char(&mut out, ':');
        push_two_digits(&mut out, self.minute);
        push_char(&mut out, ':');
        push_two_digits(&mut out, self.second);
        push_char(&mut out, 'Z');
        assert(out@ =~= timestamp_text(*self));
        out
    }
}

/// Whether `c` is a decimal digit.
fn is_digit_x(c: char) -> (b: bool)
    ensures
        b == is_digit(c),
{
    '0' <= c && c <= '9'
}

/// The value of the digit `c`.
fn digit_val_x(c: char) -> (d: u8)
    requires
        is_digit(c),
    ensures
        d == digit_val(c),
        d < 10,
{
    (c as u8) - ('0' as u8)
}

/// Reads two digits of `v` at `i`.
fn read_two_digits(v: &Vec<char>, i: usize) -> (n: u8)
    requires
        i + 2 <= v.len(),
        is_digit(v@[i as int]),
        is_digit(v@[i + 1]),
    ensures
        n == digit_val(v@[i as int]) * 10 + digit_val(v@[i + 1]),
        n < 100,
{
    digit_val_x(v[i]) * 10 + digit_val_x(v[i + 1])
}

/// Parses the wire form of a timestamp from the characters of `v`.
/// Returns exactly what `timestamp_parse` says.
pub fn parse_timestamp(v: &Vec<char>) -> (r: Option<Timestamp>)
    ensures
        r == timestamp_parse(v@),
{
    if v.len() != 20 {
        return None;
    }
    if !(v[4] == '-' && v[7] == '-' && v[10] == 'T' && v[13] == ':' && v[16] == ':' && v[19]
        == 'Z') {
        return None;
    }
    let mut k: usize = 0;
    while k < 19
        invariant
            k <= 19,
            v.len() == 20,
            forall|j: int| 0 <= j < k && j != 4 && j != 7 && j != 10 && j != 13 && j != 16
                ==> is_digit(v@[j]),
        decreases 19 - k,
    {
        if !(k == 4 || k == 7 || k == 10 || k == 13 || k == 16) {
            if !is_digit_x(v[k]) {
                return None;
            }
        }
        k = k + 1;
    }
    let d0 = digit_val_x(v[0]);
    let d1 = digit_val_x(v[1]);
    let d2 = digit_val_x(v[2]);
    let d3 = digit_val_x(v[3]);
    let year: u16 = (d0 as u16) * 1000 + (d1 as u16) * 100 + (d2 as u16) * 10 + (d3 as u16);
    let t = Timestamp {
        year,
        month: read_two_digits(v, 5),
        day: read_two_digits(v, 8),
        hour: read_two_digits(v, 11),
        minute: read_two_digits(v, 14),
        second: read_two_digits(v, 17),
    };
    let ok = t.month >= 1 && t.month <= 12 && t.day >= 1 && t.day <= days_in_month_x(t.year, t.month)
        && t.hour <= 23 && t.minute <= 59 && t.second <= 59;
    if ok {
        Some(t)
    } else {
        None
    }
}

/// How many days the month `m` of year `y` has.
fn days_in_month_x(y: u16, m: u8) -> (d: u8)
    ensures
        d == days_in_month(y as int, m as int),
{
    if m == 2 {
        if y % 4 == 0 && (y % 100 != 0 || y % 400 == 0) {
            29
        } else {
            28
        }
    } else if m == 4 || m == 6 || m == 9 || m == 11 {
        30
    } else {
        31
    }
}

/// Parsing inverts rendering: the wire text of a well-formed timestamp
/// parses back to the same timestamp.
pub proof fn lemma_timestamp_round_trip(t: Timestamp)
    requires
        t.well_formed(),
    ensures
        timestamp_parse(timestamp_text(t)) == Some(t),
{
    let y = t.year as int;
    let s = timestamp_text(t);
    assert(s =~= seq![
        digit_char(y / 1000),
        digit_char(y / 100 % 10),
        digit_char(y / 10 % 10),
        digit_char(y % 10),
        '-',
        digit_char(t.month as int / 10),
        digit_char(t.month as int % 10),
        '-',
        digit_char(t.day as int / 10),
        digit_char(t.day as int % 10),
        'T',
        digit_char(t.hour as int / 10),
        digit_char(t.hour as int % 10),
        ':',
        digit_char(t.minute as int / 10),
        digit_char(t.minute as int % 10),
        ':',
        digit_char(t.second as int / 10),
        digit_char(t.second as int % 10),
        'Z',
    ]);
    lemma_digit_char_val(y / 1000);
    lemma_digit_char_val(y / 100 % 10);
    lemma_digit_char_val(y / 10 % 10);
    lemma_digit_char_val(y % 10);
    lemma_two_digit_chars_val(t.month as int);
    lemma_two_digit_chars_val(t.day as int);
    lemma_two_digit_chars_val(t.hour as int);
    lemma_two_digit_chars_val(t.minute as int);
    lemma_two_digit_chars_val(t.second as int);
    assert((y / 1000) * 1000 + (y / 100 % 10) * 100 + (y / 10 % 10) * 10 + y % 10 == y) by {
        lemma_decimal_digits(y);
    };
    assert(timestamp_parse(s) == Some(t));
}

/// The two digit characters of a number below one hundred read back to it.
proof fn lemma_two_digit_chars_val(n: int)
    requires
        0 <= n <= 99,
    ensures
        digit_val(digit_char(n / 10)) * 10 + digit_val(digit_char(n % 10)) == n,
        is_digit(digit_char(n / 10)),
        is_digit(digit_char(n % 10)),
{
    lemma_digit_char_val(n / 10);
    lemma_digit_char_val(n % 10);
}

/// A four-digit number is rebuilt from its decimal digits.
proof fn lemma_decimal_digits(y: int)
    requires
        0 <= y <= 9999,
    ensures
        (y / 1000) * 1000 + (y / 100 % 10) * 100 + (y / 10 % 10) * 10 + y % 10 == y,
{
    assert((y / 1000) * 1000 + (y / 100 % 10) * 100 + (y / 10 % 10) * 10 + y % 10 == y) by (nonlinear_arith)
        requires
            0 <= y <= 9999,
    ;
}

/// A digit character carries its digit: it tests as a digit and reads back
/// to the same value.
proof fn lemma_digit_char_val(d: int)
    requires
        0 <= d <= 9,
    ensures
        is_digit(digit_char(d)),
        digit_val(digit_char(d)) == d,
{
}

} // verus!
