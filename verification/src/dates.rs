//! Calendar dates as day numbers, and the calls into `chrono` that read,
//! build and take apart dates.
//!
//! A date is held as its day number in the proleptic Gregorian calendar,
//! with 1 January of year 1 as day 1 — chrono's `num_days_from_ce`. One day
//! later is one more; dates compare as their numbers do.
use vstd::prelude::*;
use chrono::Datelike;
use crate::text::{dec, pad2, push_dec, push_pad2, push_str, string_of};

verus! {

/// The day number `chrono::NaiveDate::parse_from_str(s, "%Y-%m-%d")` gives
/// for `s`, or `None` where chrono rejects it.
pub uninterp spec fn parsed_ymd(s: Seq<char>) -> Option<int>;

/// Parses a `YYYY-MM-DD` date with chrono (`NaiveDate::parse_from_str` with
/// the format `%Y-%m-%d`) and returns its day number. The contract names the
/// result `parsed_ymd(s)` and says nothing more about chrono's parser.
#[verifier::external_body]
pub(crate) fn parse_ymd(s: &str) -> (r: Option<i32>)
    ensures
        match r {
            Some(d) => parsed_ymd(s@) == Some(d as int),
            None => parsed_ymd(s@) is None,
        },
{
    match chrono::NaiveDate::parse_from_str(s, "%Y-%m-%d") {
        Ok(d) => Some(d.num_days_from_ce()),
        Err(_) => None,
    }
}

/// Today's date in the local time zone (`chrono::Local::now().date_naive()`),
/// as a day number. Which day it is rests on the clock and the time zone;
/// what is promised is that it is the day number of a date chrono holds
/// (years within ±262143, chrono's `MIN_YEAR`/`MAX_YEAR`), so within ±10^8.
#[verifier::external_body]
pub(crate) fn local_today() -> (r: i32)
    ensures
        -100_000_000 <= r <= 100_000_000,
        is_day_number(r as int),
{
    chrono::Local::now().date_naive().num_days_from_ce()
}

/// The current local date and time (`chrono::Local::now().naive_local()`),
/// as a day number, the hour and the minute (seconds dropped). Depends on
/// the clock and time zone; chrono's hours are below 24 and its minutes
/// below 60.
#[verifier::external_body]
pub(crate) fn local_now() -> (r: (i32, u32, u32))
    ensures
        r.1 < 24,
        r.2 < 60,
{
    let now = chrono::Local::now().naive_local();
    let t = now.time();
    (now.date().num_days_from_ce(), chrono::Timelike::hour(&t), chrono::Timelike::minute(&t))
}

/// A leap year of the proleptic Gregorian calendar.
pub open spec fn is_leap(y: int) -> bool {
    y % 4 == 0 && (y % 100 != 0 || y % 400 == 0)
}

/// The number of days of month `m` (1–12) of year `y`.
pub open spec fn month_len(y: int, m: int) -> int {
    if m == 2 {
        if is_leap(y) {
            29
        } else {
            28
        }
    } else if m == 4 || m == 6 || m == 9 || m == 11 {
        30
    } else {
        31
    }
}

/// The days of year `y` before the first of month `m` (1–12).
pub open spec fn days_before_month(y: int, m: int) -> int {
    let common: int = if m == 1 {
        0
    } else if m == 2 {
        31
    } else if m == 3 {
        59
    } else if m == 4 {
        90
    } else if m == 5 {
        120
    } else if m == 6 {
        151
    } else if m == 7 {
        181
    } else if m == 8 {
        212
    } else if m == 9 {
        243
    } else if m == 10 {
        273
    } else if m == 11 {
        304
    } else {
        334
    };
    common + if m > 2 && is_leap(y) {
        1int
    } else {
        0int
    }
}

/// The day number of `y-m-d` in the proleptic Gregorian calendar, counting
/// 1 January of year 1 as day 1.
pub open spec fn gregorian_day(y: int, m: int, d: int) -> int {
    365 * (y - 1) + (y - 1) / 4 - (y - 1) / 100 + (y - 1) / 400 + days_before_month(y, m) + d
}

/// `y-m-d` is a date chrono holds: a real calendar date whose year lies in
/// chrono's range, `-262143..=262142`.
pub open spec fn valid_date(y: int, m: int, d: int) -> bool {
    -262143 <= y <= 262142 && 1 <= m <= 12 && 1 <= d <= month_len(y, m)
}

/// `d` is the day number of some date chrono holds.
pub open spec fn is_day_number(d: int) -> bool {
    exists|y: int, m: int, dd: int| valid_date(y, m, dd) && #[trigger] gregorian_day(y, m, dd) == d
}

/// The day number of `year-month-day`, or `None` where it is no date
/// chrono holds — what `NaiveDate::from_ymd_opt` and `num_days_from_ce`
/// give.
pub open spec fn ymd_day(year: int, month: int, day: int) -> Option<int> {
    if valid_date(year, month, day) {
        Some(gregorian_day(year, month, day))
    } else {
        None
    }
}

/// `chrono::NaiveDate::from_ymd_opt`, returning the day number
/// (`num_days_from_ce`): the proleptic Gregorian day number of a date in
/// chrono's range, `None` otherwise. Those day numbers lie within ±10^8.
#[verifier::external_body]
pub(crate) fn from_ymd(year: i32, month: u32, day: u32) -> (r: Option<i32>)
    ensures
        match r {
            Some(d) => ymd_day(year as int, month as int, day as int) == Some(d as int) && -100_000_000 <= d <= 100_000_000,
            None => ymd_day(year as int, month as int, day as int) is None,
        },
{
    match chrono::NaiveDate::from_ymd_opt(year, month, day) {
        Some(d) => Some(d.num_days_from_ce()),
        None => None,
    }
}

/// The year, month and day of the month of the date with day number `d`
/// (chrono's `year()`, `month()` and `day()` of
/// `NaiveDate::from_num_days_from_ce_opt(d)`), or `None` where chrono has no
/// such date.
pub uninterp spec fn ymd_of_day(d: int) -> Option<(int, int, int)>;

/// Takes a day number apart into year, month and day of the month, through
/// chrono's `NaiveDate::from_num_days_from_ce_opt`. What comes back is a
/// date chrono holds (its years lie within `MIN_YEAR..=MAX_YEAR`) whose day
/// number is `d`; where chrono returns `None`, no such date has that number.
#[verifier::external_body]
pub(crate) fn ymd_of(d: i32) -> (r: Option<(i32, u32, u32)>)
    ensures
        match r {
            Some((y, m, dd)) => ymd_of_day(d as int) == Some((y as int, m as int, dd as int))
                && valid_date(y as int, m as int, dd as int) && gregorian_day(y as int, m as int, dd as int) == d,
            None => ymd_of_day(d as int) is None && forall|y: int, m: int, dd: int|
                valid_date(y, m, dd) ==> #[trigger] gregorian_day(y, m, dd) != d,
        },
{
    match chrono::NaiveDate::from_num_days_from_ce_opt(d) {
        Some(date) => Some((date.year(), date.month(), date.day())),
        None => None,
    }
}

/// Days since the most recent Monday (Monday is 0 … Sunday is 6): day 1,
/// 1 January of year 1, was a Monday.
pub open spec fn weekday(d: int) -> int {
    (d - 1) % 7
}

pub fn weekday_from_monday(d: i32) -> (r: u32)
    ensures
        r == weekday(d as int),
        r < 7,
{
    let x: i64 = (d as i64 - 1 + 2_800_000_000) % 7;
    proof {
        vstd::arithmetic::div_mod::lemma_mod_add_multiples_vanish(d as int - 1, 7);
        assert(d as int - 1 + 2_800_000_000 == (d as int - 1) + 400_000_000 * 7);
        vstd::arithmetic::div_mod::lemma_mod_multiples_vanish(400_000_000, d as int - 1, 7);
    }
    let w = x;
    w as u32
}

/// `n` zero-padded to at least four digits.
pub open spec fn pad4(n: nat) -> Seq<char> {
    if n < 10 {
        "000"@ + dec(n)
    } else if n < 100 {
        "00"@ + dec(n)
    } else if n < 1000 {
        "0"@ + dec(n)
    } else {
        dec(n)
    }
}

/// A year as chrono's `%Y` prints it: four digits, zero-padded, for years
/// 0 to 9999; otherwise a sign and at least four digits.
pub open spec fn year_text(y: int) -> Seq<char> {
    if 0 <= y <= 9999 {
        pad4(y as nat)
    } else if y < 0 {
        "-"@ + pad4((-y) as nat)
    } else {
        "+"@ + pad4(y as nat)
    }
}

/// A date as `%Y-%m-%d` prints it.
pub open spec fn ymd_text(y: int, m: nat, d: nat) -> Seq<char> {
    year_text(y) + "-"@ + pad2(m) + "-"@ + pad2(d)
}

fn push_pad4(out: &mut Vec<char>, n: u64)
    ensures
        final(out)@ == old(out)@ + pad4(n as nat),
{
    let ghost start = out@;
    if n < 10 {
        push_str(out, "000");
    } else if n < 100 {
        push_str(out, "00");
    } else if n < 1000 {
        push_str(out, "0");
    }
    push_dec(out, n);
    assert(out@ =~= start + pad4(n as nat));
}

/// The date `year-month-day` written `YYYY-MM-DD` (chrono's `%Y-%m-%d`).
pub fn format_ymd(year: i32, month: u32, day: u32) -> (r: String)
    ensures
        r@ == ymd_text(year as int, month as nat, day as nat),
{
    let mut out: Vec<char> = Vec::new();
    if 0 <= year && year <= 9999 {
        push_pad4(&mut out, year as u64);
    } else if year < 0 {
        push_str(&mut out, "-");
        let magnitude: u64 = (-(year as i64)) as u64;
        push_pad4(&mut out, magnitude);
    } else {
        push_str(&mut out, "+");
        push_pad4(&mut out, year as u64);
    }
    push_str(&mut out, "-");
    push_pad2(&mut out, month as u64);
    push_str(&mut out, "-");
    push_pad2(&mut out, day as u64);
    assert(out@ =~= ymd_text(year as int, month as nat, day as nat));
    string_of(out)
}

/// The date with day number `d` written `YYYY-MM-DD`; `None` exactly where
/// no date chrono holds has that day number.
pub fn date_text(d: i32) -> (r: Option<String>)
    ensures
        match r {
            Some(s) => exists|y: int, m: int, dd: int|
                ymd_of_day(d as int) == Some((y, m, dd)) && valid_date(y, m, dd) && gregorian_day(y, m, dd) == d
                    && #[trigger] ymd_text(y, m as nat, dd as nat) == s@,
            None => ymd_of_day(d as int) is None && forall|y: int, m: int, dd: int|
                valid_date(y, m, dd) ==> #[trigger] gregorian_day(y, m, dd) != d,
        },
        is_day_number(d as int) ==> r is Some,
{
    match ymd_of(d) {
        Some((y, m, dd)) => {
            let s = format_ymd(y, m, dd);
            proof {
                let (yi, mi, di) = (y as int, m as int, dd as int);
                assert(ymd_text(yi, mi as nat, di as nat) == s@);
            }
            Some(s)
        },
        None => None,
    }
}

/// Today's local date written `YYYY-MM-DD`, as a session logged now is
/// dated. Which day is today rests on the clock; whatever it is, the text
/// is that of a date chrono holds, whose day number is today's.
pub fn today_text() -> (r: String)
    ensures
        exists|today: int, y: int, m: int, dd: int|
            #![trigger ymd_of_day(today), ymd_text(y, m as nat, dd as nat)]
            ymd_of_day(today) == Some((y, m, dd)) && valid_date(y, m, dd) && gregorian_day(y, m, dd) == today
                && ymd_text(y, m as nat, dd as nat) == r@,
{
    let today = local_today();
    let r = date_text(today);
    r.unwrap()
}

} // verus!
