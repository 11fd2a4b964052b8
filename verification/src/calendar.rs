//! Calendar values as the browser clock gives them: date keys, date and
//! time texts, and the half-year periods of the feed-in tariff.
use vstd::prelude::*;
use crate::text::{append_chars, append_str, padded_int_chars, padded_int_text, string_from_chars};

verus! {

/// Whether `v` is in the range of `i32`.
pub open spec fn in_i32(v: int) -> bool {
    i32::MIN <= v <= i32::MAX
}

/// The date key of a clock reading: year, month counted from 0, and day of
/// the month, each read as an `i32`.
pub open spec fn clock_date_key(year: u32, month: u32, day: u32) -> int {
    let y = (year as i32) as int;
    let m = (month as i32) as int;
    let d = (day as i32) as int;
    y * 10000 + (m + 1) * 100 + d
}

/// Whether every step of computing the date key of a clock reading stays
/// within `i32`.
pub open spec fn clock_date_key_in_range(year: u32, month: u32, day: u32) -> bool {
    let y = (year as i32) as int;
    let m = (month as i32) as int;
    let d = (day as i32) as int;
    &&& in_i32(y * 10000)
    &&& in_i32(m + 1)
    &&& in_i32((m + 1) * 100)
    &&& in_i32(y * 10000 + (m + 1) * 100)
    &&& in_i32(y * 10000 + (m + 1) * 100 + d)
}

/// The date key (`year * 10000 + month * 100 + day`) of a clock reading whose
/// month is counted from 0.
pub fn js_date_key(year: u32, month: u32, day: u32) -> (r: i32)
    requires
        clock_date_key_in_range(year, month, day),
    ensures
        r == clock_date_key(year, month, day),
{
    let y: i32 = #[verifier::truncate] (year as i32);
    let m: i32 = #[verifier::truncate] (month as i32);
    let d: i32 = #[verifier::truncate] (day as i32);
    y * 10000 + (m + 1) * 100 + d
}

/// The date key of a clock reading, or nothing when computing it would
/// leave `i32`.
pub fn checked_js_date_key(year: u32, month: u32, day: u32) -> (r: Option<i32>)
    ensures
        r is Some == clock_date_key_in_range(year, month, day),
        r matches Some(k) ==> k == clock_date_key(year, month, day),
{
    let y: i64 = (#[verifier::truncate] (year as i32)) as i64;
    let m: i64 = (#[verifier::truncate] (month as i32)) as i64;
    let d: i64 = (#[verifier::truncate] (day as i32)) as i64;
    let fits = |v: i64| -> (b: bool)
        ensures
            b == in_i32(v as int),
        { -2147483648 <= v && v <= 2147483647 };
    if fits(y * 10000) && fits(m + 1) && fits((m + 1) * 100) && fits(y * 10000 + (m + 1) * 100)
        && fits(y * 10000 + (m + 1) * 100 + d) {
        Some(js_date_key(year, month, day))
    } else {
        None
    }
}

/// A date as `YYYY-MM-DD`, zero-padded, from a month counted from 0.
pub open spec fn date_text(year: u32, month: u32, day: u32) -> Seq<char> {
    padded_int_text(year as int, 4) + "-"@ + padded_int_text(month + 1, 2) + "-"@ + padded_int_text(
        day as int,
        2,
    )
}

/// A clock reading's date as `YYYY-MM-DD`; the month is counted from 0.
pub fn date_string(year: u32, month: u32, day: u32) -> (r: String)
    requires
        month < u32::MAX,
    ensures
        r@ == date_text(year, month, day),
{
    let mut v = padded_int_chars(year as i64, 4);
    append_str(&mut v, "-");
    let m = padded_int_chars((month + 1) as i64, 2);
    append_chars(&mut v, &m);
    append_str(&mut v, "-");
    let d = padded_int_chars(day as i64, 2);
    append_chars(&mut v, &d);
    string_from_chars(&v)
}

/// A time of day as `HH:MM:SS`, zero-padded.
pub open spec fn time_text(hours: u32, minutes: u32, seconds: u32) -> Seq<char> {
    padded_int_text(hours as int, 2) + ":"@ + padded_int_text(minutes as int, 2) + ":"@
        + padded_int_text(seconds as int, 2)
}

/// The live clock: a time of day as `HH:MM:SS`.
pub fn time_label(hours: u32, minutes: u32, seconds: u32) -> (r: String)
    ensures
        r@ == time_text(hours, minutes, seconds),
{
    let mut v = padded_int_chars(hours as i64, 2);
    append_str(&mut v, ":");
    let m = padded_int_chars(minutes as i64, 2);
    append_chars(&mut v, &m);
    append_str(&mut v, ":");
    let s = padded_int_chars(seconds as i64, 2);
    append_chars(&mut v, &s);
    string_from_chars(&v)
}

/// A date as `DD.MM.YYYY`, zero-padded.
pub open spec fn period_date_text(year: int, month: int, day: int) -> Seq<char> {
    padded_int_text(day, 2) + "."@ + padded_int_text(month, 2) + "."@ + padded_int_text(year, 4)
}

/// A date as `DD.MM.YYYY`.
pub fn format_period_date(year: i32, month: i32, day: i32) -> (r: String)
    ensures
        r@ == period_date_text(year as int, month as int, day as int),
{
    let mut v = padded_int_chars(day as i64, 2);
    append_str(&mut v, ".");
    let m = padded_int_chars(month as i64, 2);
    append_chars(&mut v, &m);
    append_str(&mut v, ".");
    let y = padded_int_chars(year as i64, 4);
    append_chars(&mut v, &y);
    string_from_chars(&v)
}

/// The half-year period of the feed-in tariff that applies in a month: its
/// first month, its last day, and its number counted from February 2026.
#[derive(Clone, Copy, Debug)]
pub struct TariffPeriod {
    pub start_year: i32,
    pub start_month: i32,
    pub end_year: i32,
    pub end_month: i32,
    pub end_day: i32,
    pub period_index: i32,
}

/// Start year, start month, end year, end month and end day of the tariff
/// period of a month: February to July, or August to January; before
/// February 2026 the first period applies.
pub open spec fn period_bounds(year: int, month: int) -> (int, int, int, int, int) {
    if year < 2026 || (year == 2026 && month < 2) {
        (2026, 2, 2026, 7, 31)
    } else if month == 1 {
        (year - 1, 8, year, 1, 31)
    } else if month <= 7 {
        (year, 2, year, 7, 31)
    } else {
        (year, 8, year + 1, 1, 31)
    }
}

/// The number of a period from its start: two per year since February 2026.
pub open spec fn period_number(start_year: int, start_month: int) -> int {
    let n: int = (start_year - 2026) * 2 + if start_month == 8 {
        1int
    } else {
        0int
    };
    if n > 0 {
        n
    } else {
        0
    }
}

/// Whether the period of a month and its number are within `i32`.
pub open spec fn tariff_in_range(year: int, month: int) -> bool {
    let b = period_bounds(year, month);
    &&& b.2 <= i32::MAX
    &&& (b.0 - 2026) * 2 + (if b.1 == 8 {
        1int
    } else {
        0int
    }) <= i32::MAX
}

/// The tariff period that applies in `month` (1 to 12) of `year`.
pub fn tariff_period(year: i32, month: i32) -> (r: TariffPeriod)
    requires
        tariff_in_range(year as int, month as int),
    ensures
        (r.start_year as int, r.start_month as int, r.end_year as int, r.end_month as int, r.end_day as int)
            == period_bounds(year as int, month as int),
        r.period_index == period_number(r.start_year as int, r.start_month as int),
{
    let (start_year, start_month, end_year, end_month, end_day) = if year < 2026 || (year == 2026
        && month < 2) {
        (2026i32, 2i32, 2026i32, 7i32, 31i32)
    } else if month == 1 {
        (year - 1, 8, year, 1, 31)
    } else if month <= 7 {
        (year, 2, year, 7, 31)
    } else {
        (year, 8, year + 1, 1, 31)
    };
    let n: i32 = (start_year - 2026) * 2 + if start_month == 8 {
        1i32
    } else {
        0i32
    };
    let period_index: i32 = if n > 0 {
        n
    } else {
        0
    };
    TariffPeriod { start_year, start_month, end_year, end_month, end_day, period_index }
}

/// The tariff period of `month` of `year`, or nothing when it or its number
/// would leave `i32`.
pub fn checked_tariff_period(year: i32, month: i32) -> (r: Option<TariffPeriod>)
    ensures
        r is Some == tariff_in_range(year as int, month as int),
        r matches Some(p) ==> (p.start_year as int, p.start_month as int, p.end_year as int,
            p.end_month as int, p.end_day as int) == period_bounds(year as int, month as int)
            && p.period_index == period_number(p.start_year as int, p.start_month as int),
{
    let y = year as i64;
    let (start_year, start_month, end_year): (i64, i64, i64) = if year < 2026 || (year == 2026
        && month < 2) {
        (2026, 2, 2026)
    } else if month == 1 {
        (y - 1, 8, y)
    } else if month <= 7 {
        (y, 2, y)
    } else {
        (y, 8, y + 1)
    };
    let n: i64 = (start_year - 2026) * 2 + if start_month == 8 {
        1i64
    } else {
        0i64
    };
    if end_year <= 2147483647 && n <= 2147483647 {
        Some(tariff_period(year, month))
    } else {
        None
    }
}

/// The text of a period: its first day and its last day.
pub open spec fn period_label_text(p: TariffPeriod) -> Seq<char> {
    period_date_text(p.start_year as int, p.start_month as int, 1) + " bis "@ + period_date_text(
        p.end_year as int,
        p.end_month as int,
        p.end_day as int,
    )
}

impl TariffPeriod {
    /// The period as text: `01.MM.YYYY bis DD.MM.YYYY`.
    pub fn period_label(&self) -> (r: String)
        ensures
            r@ == period_label_text(*self),
    {
        let a = format_period_date(self.start_year, self.start_month, 1);
        let b = format_period_date(self.end_year, self.end_month, self.end_day);
        let mut v = crate::text::chars_of(a.as_str());
        append_str(&mut v, " bis ");
        append_str(&mut v, b.as_str());
        string_from_chars(&v)
    }
}

/// From February 2026 on, the tariff period of a month (1 to 12) contains
/// that month and spans six months, February to July or August to January.
pub proof fn lemma_period_contains_month(year: int, month: int)
    requires
        1 <= month <= 12,
        !(year < 2026 || (year == 2026 && month < 2)),
    ensures
        ({
            let b = period_bounds(year, month);
            &&& b.0 * 12 + b.1 <= year * 12 + month <= b.2 * 12 + b.3
            &&& b.2 * 12 + b.3 == b.0 * 12 + b.1 + 5
            &&& b.1 == 2 || b.1 == 8
        }),
{
}


/// The number of the tariff period that applies in a month (1 to 12).
pub open spec fn month_period_number(year: int, month: int) -> int {
    let b = period_bounds(year, month);
    period_number(b.0, b.1)
}

/// The tariff period never goes back: of two months (1 to 12), the later one
/// lies in a period with the same or a higher number, so the feed-in value,
/// which falls with the number, never rises.
pub proof fn lemma_period_number_monotonic(year1: int, month1: int, year2: int, month2: int)
    requires
        1 <= month1 <= 12,
        1 <= month2 <= 12,
        year1 < year2 || (year1 == year2 && month1 <= month2),
    ensures
        0 <= month_period_number(year1, month1) <= month_period_number(year2, month2),
{
}

} // verus!
