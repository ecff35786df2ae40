use crate::text::{all_ascii, ascii_chars_of, ascii_to_string};
use vstd::prelude::*;
use vstd::slice::slice_subrange;
use vstd::arithmetic::div_mod::lemma_fundamental_div_mod_converse;
use vstd::string::StringSliceAdditionalSpecFns;

verus! {

/// A calendar date, kept as plain year / month / day values.
///
/// The storage layer writes dates as `YYYY-MM-DD` strings; [`Date::format`]
/// and [`parse_date`] are the (proved inverse) codec for that form.
#[derive(Debug, Clone, Copy, PartialEq, Eq, Structural)]
pub struct Date {
    pub year: u16,
    pub month: u8,
    pub day: u8,
}

/// A calendar date and a time of day, as stored in `YYYY-MM-DD HH:MM:SS`
/// columns. Instants are compared through [`DateTime::spec_unix_seconds`].
#[derive(Debug, Clone, Copy, PartialEq, Eq, Structural)]
pub struct DateTime {
    pub date: Date,
    pub hour: u8,
    pub minute: u8,
    pub second: u8,
}

pub open spec fn spec_is_leap_year(y: int) -> bool {
    (y % 4 == 0 && y % 100 != 0) || y % 400 == 0
}

pub open spec fn spec_days_in_month(y: int, m: int) -> int {
    if m == 2 {
        if spec_is_leap_year(y) {
            29
        } else {
            28
        }
    } else if m == 4 || m == 6 || m == 9 || m == 11 {
        30
    } else {
        31
    }
}

pub fn is_leap_year(y: u16) -> (r: bool)
    ensures
        r == spec_is_leap_year(y as int),
{
    (y % 4 == 0 && y % 100 != 0) || y % 400 == 0
}

pub fn days_in_month(y: u16, m: u8) -> (r: u8)
    ensures
        r == spec_days_in_month(y as int, m as int),
{
    if m == 2 {
        if is_leap_year(y) {
            29
        } else {
            28
        }
    } else if m == 4 || m == 6 || m == 9 || m == 11 {
        30
    } else {
        31
    }
}

impl Date {
    /// A representable date: four-digit year, real month and day.
    pub open spec fn valid(self) -> bool {
        &&& 1 <= self.year <= 9999
        &&& 1 <= self.month <= 12
        &&& 1 <= self.day <= spec_days_in_month(self.year as int, self.month as int)
    }

    pub fn check_valid(&self) -> (r: bool)
        ensures
            r == self.valid(),
    {
        1 <= self.year && self.year <= 9999 && 1 <= self.month && self.month <= 12 && 1
            <= self.day && self.day <= days_in_month(self.year, self.month)
    }

    /// Days since 1970-01-01 in the proleptic Gregorian calendar
    /// (negative before the epoch).
    pub open spec fn spec_day_number(self) -> int {
        let y: int = if self.month <= 2 {
            self.year - 1
        } else {
            self.year as int
        };
        let era: int = y / 400;
        let yoe: int = y - era * 400;
        let mp: int = if self.month > 2 {
            self.month - 3
        } else {
            self.month + 9
        };
        let doy: int = (153 * mp + 2) / 5 + self.day - 1;
        let doe: int = yoe * 365 + yoe / 4 - yoe / 100 + doy;
        era * 146097 + doe - 719468
    }

    pub fn day_number(&self) -> (r: i64)
        requires
            self.valid(),
        ensures
            r == self.spec_day_number(),
    {
        let y: u64 = if self.month <= 2 {
            (self.year - 1) as u64
        } else {
            self.year as u64
        };
        let era: u64 = y / 400;
        let yoe: u64 = y - era * 400;
        let mp: u64 = if self.month > 2 {
            (self.month - 3) as u64
        } else {
            (self.month + 9) as u64
        };
        let doy: u64 = (153 * mp + 2) / 5 + (self.day - 1) as u64;
        let doe: u64 = yoe * 365 + yoe / 4 - yoe / 100 + doy;
        (era * 146097 + doe) as i64 - 719468
    }
}

impl DateTime {
    pub open spec fn valid(self) -> bool {
        &&& self.date.valid()
        &&& self.hour < 24
        &&& self.minute < 60
        &&& self.second < 60
    }

    pub fn check_valid(&self) -> (r: bool)
        ensures
            r == self.valid(),
    {
        self.date.check_valid() && self.hour < 24 && self.minute < 60 && self.second < 60
    }

    /// Seconds since 1970-01-01 00:00:00, the crate's time scale.
    /// All "is it expired" comparisons go through this value.
    pub open spec fn spec_unix_seconds(self) -> int {
        self.date.spec_day_number() * 86400 + self.hour * 3600 + self.minute * 60 + self.second
    }

    pub fn unix_seconds(&self) -> (r: i64)
        requires
            self.valid(),
        ensures
            r == self.spec_unix_seconds(),
    {
        self.date.day_number() * 86400 + (self.hour as i64) * 3600 + (self.minute as i64) * 60
            + self.second as i64
    }
}

pub open spec fn digit_byte(n: int) -> u8 {
    (48 + n) as u8
}

pub open spec fn is_digit(b: u8) -> bool {
    48 <= b <= 57
}

pub open spec fn digit_val(b: u8) -> int {
    b - 48
}

/// The canonical `YYYY-MM-DD` form of a date, as bytes.
pub open spec fn date_bytes(d: Date) -> Seq<u8> {
    let y = d.year as int;
    let m = d.month as int;
    let dd = d.day as int;
    seq![
        digit_byte(y / 1000),
        digit_byte((y % 1000) / 100),
        digit_byte(((y % 1000) % 100) / 10),
        digit_byte(((y % 1000) % 100) % 10),
        45u8,
        digit_byte(m / 10),
        digit_byte(m % 10),
        45u8,
        digit_byte(dd / 10),
        digit_byte(dd % 10),
    ]
}

pub open spec fn date_chars(d: Date) -> Seq<char> {
    ascii_chars_of(date_bytes(d))
}

/// The canonical `YYYY-MM-DD HH:MM:SS` form of a date-time, as bytes.
pub open spec fn date_time_bytes(dt: DateTime) -> Seq<u8> {
    let h = dt.hour as int;
    let mi = dt.minute as int;
    let s = dt.second as int;
    date_bytes(dt.date) + seq![
        32u8,
        digit_byte(h / 10),
        digit_byte(h % 10),
        58u8,
        digit_byte(mi / 10),
        digit_byte(mi % 10),
        58u8,
        digit_byte(s / 10),
        digit_byte(s % 10),
    ]
}

pub open spec fn date_time_chars(dt: DateTime) -> Seq<char> {
    ascii_chars_of(date_time_bytes(dt))
}

/// Push the two decimal digits of `n` (at most 99) onto `v`.
fn push_two_digits(v: &mut Vec<u8>, n: u8)
    requires
        n < 100,
    ensures
        final(v)@ == old(v)@ + seq![digit_byte(n as int / 10), digit_byte(n as int % 10)],
{
    v.push(48 + n / 10);
    v.push(48 + n % 10);
}

/// Push the four decimal digits of `n` (at most 9999) onto `v`.
fn push_four_digits(v: &mut Vec<u8>, n: u16)
    requires
        n <= 9999,
    ensures
        final(v)@ == old(v)@ + seq![
            digit_byte(n as int / 1000),
            digit_byte((n as int % 1000) / 100),
            digit_byte(((n as int % 1000) % 100) / 10),
            digit_byte(((n as int % 1000) % 100) % 10),
        ],
{
    assert(n as int / 1000 <= 9);
    v.push(48 + (n / 1000) as u8);
    v.push(48 + ((n % 1000) / 100) as u8);
    v.push(48 + (((n % 1000) % 100) / 10) as u8);
    v.push(48 + (((n % 1000) % 100) % 10) as u8);
}

fn date_byte_vec(d: &Date) -> (v: Vec<u8>)
    requires
        d.valid(),
    ensures
        v@ == date_bytes(*d),
{
    let mut v: Vec<u8> = Vec::new();
    push_four_digits(&mut v, d.year);
    v.push(45);
    push_two_digits(&mut v, d.month);
    v.push(45);
    push_two_digits(&mut v, d.day);
    proof {
        assert(v@ =~= date_bytes(*d));
    }
    v
}

/// Format a date in the canonical `YYYY-MM-DD` form.
pub fn format_date(d: &Date) -> (r: String)
    requires
        d.valid(),
    ensures
        r@ == date_chars(*d),
{
    let v = date_byte_vec(d);
    proof {
        assert forall|i: int| 0 <= i < v@.len() implies v@[i] < 128 by {}
    }
    ascii_to_string(v)
}

/// Format a date-time in the canonical `YYYY-MM-DD HH:MM:SS` form.
pub fn format_date_time(dt: &DateTime) -> (r: String)
    requires
        dt.valid(),
    ensures
        r@ == date_time_chars(*dt),
{
    let mut v = date_byte_vec(&dt.date);
    v.push(32);
    push_two_digits(&mut v, dt.hour);
    v.push(58);
    push_two_digits(&mut v, dt.minute);
    v.push(58);
    push_two_digits(&mut v, dt.second);
    proof {
        assert(v@ =~= date_time_bytes(*dt));
        assert forall|i: int| 0 <= i < v@.len() implies v@[i] < 128 by {}
    }
    ascii_to_string(v)
}

/// Format the `YYYY-MM` prefix of a date's canonical form: its month
/// group label.
pub fn format_year_month(d: &Date) -> (r: String)
    requires
        d.valid(),
    ensures
        r@ == date_chars(*d).take(7),
{
    let mut v: Vec<u8> = Vec::new();
    push_four_digits(&mut v, d.year);
    v.push(45);
    push_two_digits(&mut v, d.month);
    proof {
        assert(v@ =~= date_bytes(*d).take(7));
        assert forall|i: int| 0 <= i < v@.len() implies v@[i] < 128 by {}
        assert(ascii_chars_of(v@) =~= date_chars(*d).take(7));
    }
    ascii_to_string(v)
}

/// What parsing a `YYYY-MM-DD` byte string yields: exactly the canonical,
/// zero-padded form of a valid date is accepted.
pub open spec fn spec_parse_date(b: Seq<u8>) -> Option<Date> {
    if b.len() == 10 && is_digit(b[0]) && is_digit(b[1]) && is_digit(b[2]) && is_digit(b[3]) && b[4]
        == 45 && is_digit(b[5]) && is_digit(b[6]) && b[7] == 45 && is_digit(b[8]) && is_digit(
        b[9],
    ) {
        let d = Date {
            year: (digit_val(b[0]) * 1000 + digit_val(b[1]) * 100 + digit_val(b[2]) * 10
                + digit_val(b[3])) as u16,
            month: (digit_val(b[5]) * 10 + digit_val(b[6])) as u8,
            day: (digit_val(b[8]) * 10 + digit_val(b[9])) as u8,
        };
        if d.valid() {
            Some(d)
        } else {
            None
        }
    } else {
        None
    }
}

pub open spec fn spec_parse_date_time(b: Seq<u8>) -> Option<DateTime> {
    if b.len() == 19 && b[10] == 32 && is_digit(b[11]) && is_digit(b[12]) && b[13] == 58 && is_digit(
        b[14],
    ) && is_digit(b[15]) && b[16] == 58 && is_digit(b[17]) && is_digit(b[18]) {
        match spec_parse_date(b.take(10)) {
            Some(d) => {
                let dt = DateTime {
                    date: d,
                    hour: (digit_val(b[11]) * 10 + digit_val(b[12])) as u8,
                    minute: (digit_val(b[14]) * 10 + digit_val(b[15])) as u8,
                    second: (digit_val(b[17]) * 10 + digit_val(b[18])) as u8,
                };
                if dt.valid() {
                    Some(dt)
                } else {
                    None
                }
            },
            None => None,
        }
    } else {
        None
    }
}

fn digit_at(b: &[u8], i: usize) -> (r: Option<u8>)
    requires
        i < b@.len(),
    ensures
        r matches Some(v) ==> is_digit(b@[i as int]) && v == digit_val(b@[i as int]),
        r is None ==> !is_digit(b@[i as int]),
{
    let c = b[i];
    if 48 <= c && c <= 57 {
        Some(c - 48)
    } else {
        None
    }
}

/// Parse a `YYYY-MM-DD` string; only the canonical form of a valid date
/// is accepted.
pub fn parse_date(s: &str) -> (r: Option<Date>)
    ensures
        r == spec_parse_date(s.spec_bytes()),
        r matches Some(d) ==> d.valid(),
{
    let b = s.as_bytes();
    if b.len() != 10 {
        return None;
    }
    if !(b[4] == 45 && b[7] == 45) {
        return None;
    }
    let (d0, d1, d2, d3) = match (digit_at(b, 0), digit_at(b, 1), digit_at(b, 2), digit_at(b, 3)) {
        (Some(a), Some(bb), Some(c), Some(dd)) => (a, bb, c, dd),
        _ => {
            return None;
        },
    };
    let (m0, m1) = match (digit_at(b, 5), digit_at(b, 6)) {
        (Some(a), Some(bb)) => (a, bb),
        _ => {
            return None;
        },
    };
    let (a0, a1) = match (digit_at(b, 8), digit_at(b, 9)) {
        (Some(a), Some(bb)) => (a, bb),
        _ => {
            return None;
        },
    };
    let d = Date {
        year: (d0 as u16) * 1000 + (d1 as u16) * 100 + (d2 as u16) * 10 + (d3 as u16),
        month: m0 * 10 + m1,
        day: a0 * 10 + a1,
    };
    if d.check_valid() {
        Some(d)
    } else {
        None
    }
}

/// Parse a `YYYY-MM-DD HH:MM:SS` string; only the canonical form of a
/// valid date-time is accepted.
pub fn parse_date_time(s: &str) -> (r: Option<DateTime>)
    ensures
        r == spec_parse_date_time(s.spec_bytes()),
        r matches Some(dt) ==> dt.valid(),
{
    let b = s.as_bytes();
    if b.len() != 19 {
        return None;
    }
    if !(b[10] == 32 && b[13] == 58 && b[16] == 58) {
        return None;
    }
    let (h0, h1) = match (digit_at(b, 11), digit_at(b, 12)) {
        (Some(a), Some(bb)) => (a, bb),
        _ => {
            return None;
        },
    };
    let (i0, i1) = match (digit_at(b, 14), digit_at(b, 15)) {
        (Some(a), Some(bb)) => (a, bb),
        _ => {
            return None;
        },
    };
    let (s0, s1) = match (digit_at(b, 17), digit_at(b, 18)) {
        (Some(a), Some(bb)) => (a, bb),
        _ => {
            return None;
        },
    };
    let head = slice_subrange(b, 0, 10);
    let date = match parse_date_bytes(head) {
        Some(d) => d,
        None => {
            return None;
        },
    };
    let dt = DateTime { date, hour: h0 * 10 + h1, minute: i0 * 10 + i1, second: s0 * 10 + s1 };
    if dt.check_valid() {
        Some(dt)
    } else {
        None
    }
}

/// Parse a `YYYY-MM-DD` byte string, the core of [`parse_date`].
pub fn parse_date_bytes(b: &[u8]) -> (r: Option<Date>)
    ensures
        r == spec_parse_date(b@),
        r matches Some(d) ==> d.valid(),
{
    if b.len() != 10 {
        return None;
    }
    if !(b[4] == 45 && b[7] == 45) {
        return None;
    }
    let (d0, d1, d2, d3) = match (digit_at(b, 0), digit_at(b, 1), digit_at(b, 2), digit_at(b, 3)) {
        (Some(a), Some(bb), Some(c), Some(dd)) => (a, bb, c, dd),
        _ => {
            return None;
        },
    };
    let (m0, m1) = match (digit_at(b, 5), digit_at(b, 6)) {
        (Some(a), Some(bb)) => (a, bb),
        _ => {
            return None;
        },
    };
    let (a0, a1) = match (digit_at(b, 8), digit_at(b, 9)) {
        (Some(a), Some(bb)) => (a, bb),
        _ => {
            return None;
        },
    };
    let d = Date {
        year: (d0 as u16) * 1000 + (d1 as u16) * 100 + (d2 as u16) * 10 + (d3 as u16),
        month: m0 * 10 + m1,
        day: a0 * 10 + a1,
    };
    if d.check_valid() {
        Some(d)
    } else {
        None
    }
}

/// Parse a `YYYY-MM-DD HH:MM:SS` byte string, the core of
/// [`parse_date_time`].
pub fn parse_date_time_bytes(b: &[u8]) -> (r: Option<DateTime>)
    ensures
        r == spec_parse_date_time(b@),
        r matches Some(dt) ==> dt.valid(),
{
    if b.len() != 19 {
        return None;
    }
    if !(b[10] == 32 && b[13] == 58 && b[16] == 58) {
        return None;
    }
    let (h0, h1) = match (digit_at(b, 11), digit_at(b, 12)) {
        (Some(a), Some(bb)) => (a, bb),
        _ => {
            return None;
        },
    };
    let (i0, i1) = match (digit_at(b, 14), digit_at(b, 15)) {
        (Some(a), Some(bb)) => (a, bb),
        _ => {
            return None;
        },
    };
    let (s0, s1) = match (digit_at(b, 17), digit_at(b, 18)) {
        (Some(a), Some(bb)) => (a, bb),
        _ => {
            return None;
        },
    };
    let head = slice_subrange(b, 0, 10);
    let date = match parse_date_bytes(head) {
        Some(d) => d,
        None => {
            return None;
        },
    };
    let dt = DateTime { date, hour: h0 * 10 + h1, minute: i0 * 10 + i1, second: s0 * 10 + s1 };
    if dt.check_valid() {
        Some(dt)
    } else {
        None
    }
}

/// The other direction: anything the date parser accepts was the
/// canonical form of the date it yields.
pub proof fn lemma_parse_date_exact(b: Seq<u8>, d: Date)
    requires
        spec_parse_date(b) == Some(d),
    ensures
        b == date_bytes(d),
{
    let y = d.year as int;
    let d0 = digit_val(b[0]);
    let d1 = digit_val(b[1]);
    let d2 = digit_val(b[2]);
    let d3 = digit_val(b[3]);
    lemma_fundamental_div_mod_converse(y, 1000, d0, d1 * 100 + d2 * 10 + d3);
    lemma_fundamental_div_mod_converse(d1 * 100 + d2 * 10 + d3, 100, d1, d2 * 10 + d3);
    lemma_fundamental_div_mod_converse(d2 * 10 + d3, 10, d2, d3);
    let m = d.month as int;
    lemma_fundamental_div_mod_converse(m, 10, digit_val(b[5]), digit_val(b[6]));
    let dd = d.day as int;
    lemma_fundamental_div_mod_converse(dd, 10, digit_val(b[8]), digit_val(b[9]));
    assert(b =~= date_bytes(d));
}

/// The other direction for date-times.
pub proof fn lemma_parse_date_time_exact(b: Seq<u8>, dt: DateTime)
    requires
        spec_parse_date_time(b) == Some(dt),
    ensures
        b == date_time_bytes(dt),
{
    let d = spec_parse_date(b.take(10));
    lemma_parse_date_exact(b.take(10), dt.date);
    lemma_fundamental_div_mod_converse(dt.hour as int, 10, digit_val(b[11]), digit_val(b[12]));
    lemma_fundamental_div_mod_converse(dt.minute as int, 10, digit_val(b[14]), digit_val(b[15]));
    lemma_fundamental_div_mod_converse(dt.second as int, 10, digit_val(b[17]), digit_val(b[18]));
    assert(b =~= date_time_bytes(dt));
}

/// LAW: parsing the canonical form of a valid date yields that date back.
pub proof fn lemma_date_roundtrip(d: Date)
    requires
        d.valid(),
    ensures
        spec_parse_date(date_bytes(d)) == Some(d),
{
    let b = date_bytes(d);
    let y = d.year as int;
    assert(y == (y / 1000) * 1000 + (y % 1000));
    assert(y % 1000 == ((y % 1000) / 100) * 100 + (y % 1000) % 100);
    assert((y % 1000) % 100 == (((y % 1000) % 100) / 10) * 10 + ((y % 1000) % 100) % 10);
    let m = d.month as int;
    assert(m == (m / 10) * 10 + m % 10);
    let dd = d.day as int;
    assert(dd == (dd / 10) * 10 + dd % 10);
}

/// LAW: parsing the canonical form of a valid date-time yields it back.
pub proof fn lemma_date_time_roundtrip(dt: DateTime)
    requires
        dt.valid(),
    ensures
        spec_parse_date_time(date_time_bytes(dt)) == Some(dt),
{
    let b = date_time_bytes(dt);
    assert(b.take(10) =~= date_bytes(dt.date));
    lemma_date_roundtrip(dt.date);
    let h = dt.hour as int;
    assert(h == (h / 10) * 10 + h % 10);
    let mi = dt.minute as int;
    assert(mi == (mi / 10) * 10 + mi % 10);
    let s = dt.second as int;
    assert(s == (s / 10) * 10 + s % 10);
}

} // verus!
