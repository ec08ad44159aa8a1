//! Machine uptime per calendar day, read from `last reboot` records.
use vstd::prelude::*;
use crate::text::{chars_of, slice_chars, find_char_from, find_char, lemma_find_char_found, parse_uint, parse_uint_chars,
    words, lines, split_words, split_lines, eq_str};
use crate::dates::{ymd_day, from_ymd, ymd_of_day, ymd_of, local_now};

verus! {

/// One slice of machine uptime that falls entirely within a single calendar
/// date (a day number). A boot that spans midnight is split into one
/// `BootSession` per date it covers.
///
/// Note this measures **uptime**, not attentive use: a suspended-but-not-shut-
/// down laptop still counts as running.
pub struct BootSession {
    pub date: i64,
    pub minutes: u64,
}

/// The month number of a three-letter English month abbreviation.
pub open spec fn month_of(s: Seq<char>) -> Option<int> {
    if s == "Jan"@ {
        Some(1)
    } else if s == "Feb"@ {
        Some(2)
    } else if s == "Mar"@ {
        Some(3)
    } else if s == "Apr"@ {
        Some(4)
    } else if s == "May"@ {
        Some(5)
    } else if s == "Jun"@ {
        Some(6)
    } else if s == "Jul"@ {
        Some(7)
    } else if s == "Aug"@ {
        Some(8)
    } else if s == "Sep"@ {
        Some(9)
    } else if s == "Oct"@ {
        Some(10)
    } else if s == "Nov"@ {
        Some(11)
    } else if s == "Dec"@ {
        Some(12)
    } else {
        None
    }
}

fn month_number_chars(v: &Vec<char>) -> (r: Option<u32>)
    ensures
        match r {
            Some(m) => month_of(v@) == Some(m as int),
            None => month_of(v@) is None,
        },
{
    if eq_str(v, "Jan") {
        Some(1)
    } else if eq_str(v, "Feb") {
        Some(2)
    } else if eq_str(v, "Mar") {
        Some(3)
    } else if eq_str(v, "Apr") {
        Some(4)
    } else if eq_str(v, "May") {
        Some(5)
    } else if eq_str(v, "Jun") {
        Some(6)
    } else if eq_str(v, "Jul") {
        Some(7)
    } else if eq_str(v, "Aug") {
        Some(8)
    } else if eq_str(v, "Sep") {
        Some(9)
    } else if eq_str(v, "Oct") {
        Some(10)
    } else if eq_str(v, "Nov") {
        Some(11)
    } else if eq_str(v, "Dec") {
        Some(12)
    } else {
        None
    }
}

pub fn month_number(abbrev: &str) -> (r: Option<u32>)
    ensures
        match r {
            Some(m) => month_of(abbrev@) == Some(m as int),
            None => month_of(abbrev@) is None,
        },
{
    month_number_chars(&chars_of(abbrev))
}

/// `s` without any leading `c`.
pub open spec fn drop_leading(s: Seq<char>, c: char) -> Seq<char>
    decreases s.len(),
{
    if s.len() > 0 && s[0] == c {
        drop_leading(s.drop_first(), c)
    } else {
        s
    }
}

/// `s` without any trailing `c`.
pub open spec fn drop_trailing(s: Seq<char>, c: char) -> Seq<char>
    decreases s.len(),
{
    if s.len() > 0 && s.last() == c {
        drop_trailing(s.drop_last(), c)
    } else {
        s
    }
}

/// `str::split_once` on a character: the parts before and after its first
/// occurrence.
pub open spec fn split_once(s: Seq<char>, c: char) -> Option<(Seq<char>, Seq<char>)> {
    match find_char_from(s, c, 0) {
        Some(i) => Some((s.take(i), s.skip(i + 1))),
        None => None,
    }
}

pub open spec fn u64_max() -> nat {
    u64::MAX as nat
}

/// Days and the `hh:mm` part of a duration token `(hh:mm)` or `(d+hh:mm)`.
pub open spec fn duration_days(raw: Seq<char>) -> Option<(nat, Seq<char>)> {
    let t = drop_trailing(drop_leading(raw, '('), ')');
    match split_once(t, '+') {
        Some((d, rest)) => match parse_uint(d, u64_max()) {
            Some(days) => Some((days, rest)),
            None => None,
        },
        None => Some((0, t)),
    }
}

/// `"(03:15)"` is 195 minutes, `"(1+02:30)"` (multi-day) is 1590. A
/// duration whose minutes do not fit in a `u64` does not read.
pub open spec fn duration_minutes(raw: Seq<char>) -> Option<nat> {
    match duration_days(raw) {
        Some((days, hhmm)) => match split_once(hhmm, ':') {
            Some((h, m)) => match (parse_uint(h, u64_max()), parse_uint(m, u64_max())) {
                (Some(hv), Some(mv)) => if days * 1440 + hv * 60 + mv <= u64_max() {
                    Some(days * 1440 + hv * 60 + mv)
                } else {
                    None
                },
                _ => None,
            },
            None => None,
        },
        None => None,
    }
}

proof fn lemma_drop_leading(s: Seq<char>, c: char, i: int)
    requires
        0 <= i <= s.len(),
        forall|k: int| 0 <= k < i ==> s[k] == c,
    ensures
        drop_leading(s, c) == drop_leading(s.skip(i), c),
    decreases i,
{
    if i > 0 {
        assert(s.drop_first().skip(i - 1) =~= s.skip(i));
        lemma_drop_leading(s.drop_first(), c, i - 1);
    } else {
        assert(s.skip(0) =~= s);
    }
}

proof fn lemma_drop_trailing(s: Seq<char>, c: char, j: int)
    requires
        0 <= j <= s.len(),
        forall|k: int| j <= k < s.len() ==> s[k] == c,
    ensures
        drop_trailing(s, c) == drop_trailing(s.take(j), c),
    decreases s.len() - j,
{
    if j < s.len() {
        assert(s.drop_last().take(j) =~= s.take(j));
        lemma_drop_trailing(s.drop_last(), c, j);
    } else {
        assert(s.take(j) =~= s);
    }
}

fn split_at_char(v: &Vec<char>, c: char) -> (r: Option<(Vec<char>, Vec<char>)>)
    ensures
        match r {
            Some((a, b)) => split_once(v@, c) == Some((a@, b@)),
            None => split_once(v@, c) is None,
        },
{
    let n = v.len();
    match find_char(v, c, 0) {
        Some(i) => {
            proof {
                lemma_find_char_found(v@, c, 0);
            }
            assert(i < n);
            let a = slice_chars(v, 0, i);
            let b = slice_chars(v, i + 1, v.len());
            assert(a@ =~= v@.take(i as int));
            assert(b@ =~= v@.skip(i + 1));
            Some((a, b))
        },
        None => None,
    }
}

/// The duration token with its leading `(`s and trailing `)`s removed.
fn trim_parens(raw: &Vec<char>) -> (t: Vec<char>)
    ensures
        t@ == drop_trailing(drop_leading(raw@, '('), ')'),
{
    let mut a: usize = 0;
    while a < raw.len() && raw[a] == '('
        invariant
            a <= raw@.len(),
            forall|k: int| 0 <= k < a ==> raw@[k] == '(',
        decreases raw@.len() - a,
    {
        a = a + 1;
    }
    let mut b: usize = raw.len();
    while b > a && raw[b - 1] == ')'
        invariant
            a <= b <= raw@.len(),
            forall|k: int| b <= k < raw@.len() ==> raw@[k] == ')',
        decreases b,
    {
        b = b - 1;
    }
    let t = slice_chars(raw, a, b);
    proof {
        lemma_drop_leading(raw@, '(', a as int);
        let rest = raw@.skip(a as int);
        if a < raw@.len() {
            assert(rest[0] == raw@[a as int]);
        }
        assert(drop_leading(rest, '(') == rest);
        assert forall|k: int| b - a <= k < rest.len() implies rest[k] == ')' by {
            assert(rest[k] == raw@[a + k]);
        }
        lemma_drop_trailing(rest, ')', (b - a) as int);
        let tt = rest.take((b - a) as int);
        assert(tt =~= t@);
        if b > a {
            assert(tt.last() == raw@[b - 1]);
        }
        assert(drop_trailing(tt, ')') == tt);
    }
    t
}

fn parse_duration_chars(raw: &Vec<char>) -> (r: Option<u64>)
    ensures
        match r {
            Some(n) => duration_minutes(raw@) == Some(n as nat),
            None => duration_minutes(raw@) is None,
        },
{
    let t = trim_parens(raw);
    let (days, hhmm) = match split_at_char(&t, '+') {
        Some((d, rest)) => match parse_uint_chars(&d, u64::MAX) {
            Some(days) => (days, rest),
            None => return None,
        },
        None => (0u64, t),
    };
    let (h, m) = match split_at_char(&hhmm, ':') {
        Some(p) => p,
        None => return None,
    };
    let hv = match parse_uint_chars(&h, u64::MAX) {
        Some(v) => v,
        None => return None,
    };
    let mv = match parse_uint_chars(&m, u64::MAX) {
        Some(v) => v,
        None => return None,
    };
    if days > u64::MAX / 1440 {
        proof {
            assert(days * 1440 > u64::MAX) by (nonlinear_arith)
                requires
                    days > u64::MAX / 1440,
            ;
        }
        return None;
    }
    proof {
        assert(days * 1440 <= u64::MAX) by (nonlinear_arith)
            requires
                days <= u64::MAX / 1440,
        ;
    }
    let day_minutes = days * 1440;
    if hv > (u64::MAX - day_minutes) / 60 {
        proof {
            assert(day_minutes + hv * 60 > u64::MAX) by (nonlinear_arith)
                requires
                    hv > (u64::MAX - day_minutes) / 60,
                    day_minutes <= u64::MAX,
            ;
        }
        return None;
    }
    proof {
        assert(day_minutes + hv * 60 <= u64::MAX) by (nonlinear_arith)
            requires
                hv <= (u64::MAX - day_minutes) / 60,
                day_minutes <= u64::MAX,
        ;
    }
    let hm = day_minutes + hv * 60;
    if mv > u64::MAX - hm {
        return None;
    }
    Some(hm + mv)
}

/// `"(03:15)"` -> 195, `"(1+02:30)"` (multi-day) -> 1590.
pub fn parse_duration_minutes(raw: &str) -> (r: Option<u64>)
    ensures
        match r {
            Some(n) => duration_minutes(raw@) == Some(n as nat),
            None => duration_minutes(raw@) is None,
        },
{
    parse_duration_chars(&chars_of(raw))
}


/// `last` prints no year: the date `month`/`day` in the year of `today`,
/// unless that lies after `today`, in which case the year before.
pub open spec fn resolved_date(month: int, day: int, today: int) -> Option<int> {
    match ymd_of_day(today) {
        Some((y, _, _)) => match ymd_day(y, month, day) {
            Some(d) => if d > today {
                ymd_day(y - 1, month, day)
            } else {
                Some(d)
            },
            None => None,
        },
        None => None,
    }
}

/// `last` prints no year. Assume the current year unless that would put the
/// date in the future (relative to `today`), in which case it must be from
/// last year — handles the Dec/Jan wraparound cheaply.
pub fn resolve_date(month: u32, day: u32, today: i32) -> (r: Option<i32>)
    ensures
        match r {
            Some(d) => resolved_date(month as int, day as int, today as int) == Some(d as int) && -100_000_000 <= d <= 100_000_000,
            None => resolved_date(month as int, day as int, today as int) is None,
        },
{
    let year = match ymd_of(today) {
        Some((y, _, _)) => y,
        None => return None,
    };
    let date = match from_ymd(year, month, day) {
        Some(d) => d,
        None => return None,
    };
    if date > today {
        from_ymd(year - 1, month, day)
    } else {
        Some(date)
    }
}

/// The minute of the day that an `hh:mm` token names (hours below 24,
/// minutes below 60, as `NaiveTime::from_hms_opt` accepts).
pub open spec fn minute_of_day(s: Seq<char>) -> Option<int> {
    match split_once(s, ':') {
        Some((h, m)) => match (parse_uint(h, u32::MAX as nat), parse_uint(m, u32::MAX as nat)) {
            (Some(hv), Some(mv)) => if hv < 24 && mv < 60 {
                Some((hv * 60 + mv) as int)
            } else {
                None
            },
            _ => None,
        },
        None => None,
    }
}

fn parse_time_chars(v: &Vec<char>) -> (r: Option<u32>)
    ensures
        match r {
            Some(t) => minute_of_day(v@) == Some(t as int) && t < 1440,
            None => minute_of_day(v@) is None,
        },
{
    let (h, m) = match split_at_char(v, ':') {
        Some(p) => p,
        None => return None,
    };
    let hv = match parse_uint_chars(&h, u32::MAX as u64) {
        Some(x) => x,
        None => return None,
    };
    let mv = match parse_uint_chars(&m, u32::MAX as u64) {
        Some(x) => x,
        None => return None,
    };
    if hv < 24 && mv < 60 {
        Some((hv * 60 + mv) as u32)
    } else {
        None
    }
}

/// The words of a `reboot   system boot` record.
pub open spec fn is_boot_record(ws: Seq<Seq<char>>) -> bool {
    ws.len() >= 3 && ws[0] == "reboot"@ && ws[1] == "system"@ && ws[2] == "boot"@
}

/// The span a `last reboot` line describes, as its start date, its start
/// minute within that day, and its length in minutes. `now` counts minutes
/// from the start of day 0 and `today` is its day. A completed boot reads
/// its length from the `(hh:mm)` / `(d+hh:mm)` token; a boot that is "still
/// running" lasts until `now` (never negative).
pub open spec fn boot_span(line: Seq<char>, today: int, now: int) -> Option<(int, int, nat)> {
    let ws = words(line);
    if !is_boot_record(ws) || ws.len() <= 5 {
        None
    } else {
        match month_of(ws[5]) {
            None => None,
            Some(month) => if ws.len() <= 6 {
                None
            } else {
                match parse_uint(ws[6], u32::MAX as nat) {
                    None => None,
                    Some(day) => if ws.len() <= 7 {
                        None
                    } else {
                        match resolved_date(month, day as int, today) {
                            None => None,
                            Some(date) => match minute_of_day(ws[7]) {
                                None => None,
                                Some(t) => {
                                    let start = date * 1440 + t;
                                    if ws.len() > 8 && ws[8] == "still"@ {
                                        Some((date, t, (if now - start > 0 {
                                            now - start
                                        } else {
                                            0
                                        }) as nat))
                                    } else if ws.len() <= 10 {
                                        None
                                    } else {
                                        match duration_minutes(ws[10]) {
                                            Some(m) => Some((date, t, m)),
                                            None => None,
                                        }
                                    }
                                },
                            },
                        }
                    },
                }
            },
        }
    }
}

fn boot_span_chars(line: &Vec<char>, today: i32, now: i64) -> (r: Option<(i32, u32, u64)>)
    requires
        0 <= now - today * 1440 < 1440,
    ensures
        match r {
            Some((d, t, m)) => boot_span(line@, today as int, now as int) == Some((d as int, t as int, m as nat))
                && -100_000_000 <= d <= 100_000_000 && t < 1440,
            None => boot_span(line@, today as int, now as int) is None,
        },
{
    let ws = split_words(line);
    let ghost w = words(line@);
    if ws.len() < 3 || !eq_str(&ws[0], "reboot") || !eq_str(&ws[1], "system") || !eq_str(&ws[2], "boot") {
        return None;
    }
    if ws.len() <= 5 {
        return None;
    }
    let month = match month_number_chars(&ws[5]) {
        Some(m) => m,
        None => return None,
    };
    if ws.len() <= 6 {
        return None;
    }
    let day = match parse_uint_chars(&ws[6], u32::MAX as u64) {
        Some(d) => d as u32,
        None => return None,
    };
    if ws.len() <= 7 {
        return None;
    }
    let date = match resolve_date(month, day, today) {
        Some(d) => d,
        None => return None,
    };
    let t = match parse_time_chars(&ws[7]) {
        Some(t) => t,
        None => return None,
    };
    let start: i64 = date as i64 * 1440 + t as i64;
    if ws.len() > 8 && eq_str(&ws[8], "still") {
        let diff: i64 = now - start;
        let minutes: u64 = if diff > 0 { diff as u64 } else { 0 };
        return Some((date, t, minutes));
    }
    if ws.len() <= 10 {
        return None;
    }
    match parse_duration_chars(&ws[10]) {
        Some(m) => Some((date, t, m)),
        None => None,
    }
}

/// The per-date pieces of a span of `left` minutes starting at minute
/// `minute` of day `day`: up to midnight first, then whole days, then the
/// remainder.
pub open spec fn split_from(day: int, minute: int, left: nat) -> Seq<(int, nat)>
    decreases left,
{
    if left == 0 || minute < 0 || minute >= 1440 {
        Seq::empty()
    } else {
        let until = 1440 - minute;
        let chunk = if left < until {
            left
        } else {
            until as nat
        };
        seq![(day, chunk)] + split_from(day + 1, 0, (left - chunk) as nat)
    }
}

/// A boot session as plain values.
pub open spec fn session_view(b: BootSession) -> (int, nat) {
    (b.date as int, b.minutes as nat)
}

/// Splits a `minutes`-long span starting at minute `minute_of_day` of day
/// `day` into per-calendar-date chunks, so an overnight boot credits each day
/// the share it actually ran.
pub fn split_at_midnight(day: i64, minute_of_day: u32, minutes: u64) -> (r: Vec<BootSession>)
    requires
        minute_of_day < 1440,
        -200_000_000 <= day <= 200_000_000,
    ensures
        r@.map_values(|b: BootSession| session_view(b)) == split_from(day as int, minute_of_day as int, minutes as nat),
{
    let mut out: Vec<BootSession> = Vec::new();
    let mut cur_day: i64 = day;
    let mut cur_min: u32 = minute_of_day;
    let mut left: u64 = minutes;
    while left > 0
        invariant
            cur_min < 1440,
            left <= minutes,
            day <= cur_day,
            -200_000_000 <= day <= 200_000_000,
            left > 0 ==> minute_of_day + (minutes - left) == (cur_day - day) * 1440 + cur_min,
            out@.map_values(|b: BootSession| session_view(b)) + split_from(cur_day as int, cur_min as int, left as nat)
                == split_from(day as int, minute_of_day as int, minutes as nat),
        decreases left,
    {
        let until: u64 = (1440 - cur_min) as u64;
        let chunk: u64 = if left < until { left } else { until };
        let ghost before = out@;
        proof {
            assert(cur_day - day <= 12_811_610_000_000_000) by (nonlinear_arith)
                requires
                    minute_of_day + (minutes - left) == (cur_day - day) * 1440 + cur_min,
                    minute_of_day < 1440,
                    minutes <= u64::MAX,
                    left <= minutes,
                    cur_min >= 0,
            ;
        }
        out.push(BootSession { date: cur_day, minutes: chunk });
        proof {
            let rest = split_from(cur_day + 1, 0, (left - chunk) as nat);
            assert(split_from(cur_day as int, cur_min as int, left as nat) == seq![(cur_day as int, chunk as nat)] + rest);
            assert(out@.map_values(|b: BootSession| session_view(b)) =~= before.map_values(|b: BootSession| session_view(b)).push((cur_day as int, chunk as nat)));
            assert(out@.map_values(|b: BootSession| session_view(b)) + rest =~= before.map_values(|b: BootSession| session_view(b)) + split_from(cur_day as int, cur_min as int, left as nat));
        }
        left = left - chunk;
        cur_day = cur_day + 1;
        cur_min = 0;
    }
    assert(split_from(cur_day as int, cur_min as int, 0) == Seq::<(int, nat)>::empty());
    assert(out@.map_values(|b: BootSession| session_view(b)) + Seq::<(int, nat)>::empty() =~= out@.map_values(|b: BootSession| session_view(b)));
    out
}

/// The boot sessions the lines `ls` describe, in order, each span split at
/// midnights.
pub open spec fn sessions_in_lines(ls: Seq<Seq<char>>, today: int, now: int) -> Seq<(int, nat)>
    decreases ls.len(),
{
    if ls.len() == 0 {
        Seq::empty()
    } else {
        sessions_in_lines(ls.drop_last(), today, now) + match boot_span(ls.last(), today, now) {
            Some((date, t, m)) => split_from(date, t, m),
            None => Seq::empty(),
        }
    }
}

/// The boot sessions in `last reboot` output `text`, as of the local time
/// `now_minute` minutes into the day `now_day`.
pub fn parse_last_output(text: &str, now_day: i32, now_minute: u32) -> (r: Vec<BootSession>)
    requires
        now_minute < 1440,
    ensures
        r@.map_values(|b: BootSession| session_view(b)) == sessions_in_lines(lines(text@), now_day as int, now_day * 1440 + now_minute),
{
    let now: i64 = now_day as i64 * 1440 + now_minute as i64;
    let v = chars_of(text);
    let ls = split_lines(&v);
    let ghost all = lines(text@);
    let mut out: Vec<BootSession> = Vec::new();
    let mut i: usize = 0;
    while i < ls.len()
        invariant
            i <= ls@.len(),
            ls@.len() == all.len(),
            all == lines(text@),
            now == now_day * 1440 + now_minute,
            now_minute < 1440,
            forall|k: int| 0 <= k < ls@.len() ==> #[trigger] ls@[k]@ == all[k],
            out@.map_values(|b: BootSession| session_view(b)) == sessions_in_lines(all.take(i as int), now_day as int, now as int),
        decreases ls@.len() - i,
    {
        assert(all.take(i + 1).drop_last() =~= all.take(i as int));
        assert(all.take(i + 1).last() == ls@[i as int]@);
        let ghost before = out@;
        match boot_span_chars(&ls[i], now_day, now) {
            Some((d, t, m)) => {
                let mut pieces = split_at_midnight(d as i64, t, m);
                let ghost p = pieces@;
                out.append(&mut pieces);
                proof {
                    assert(out@.map_values(|b: BootSession| session_view(b)) =~= before.map_values(|b: BootSession| session_view(b)) + p.map_values(|b: BootSession| session_view(b)));
                }
            },
            None => {},
        }
        i = i + 1;
    }
    assert(all.take(ls@.len() as int) =~= all);
    out
}

/// The boot sessions `last reboot` output `text` describes as of minute
/// `minute` of day `day`.
pub open spec fn sessions_as_of(text: Seq<char>, day: int, minute: int) -> Seq<(int, nat)> {
    sessions_in_lines(lines(text), day, day * 1440 + minute)
}

/// The boot sessions in `last reboot` output `text`, as of the current
/// local time.
pub fn boot_sessions(text: &str) -> (r: Vec<BootSession>)
    ensures
        exists|day: int, minute: int|
            0 <= minute < 1440 && r@.map_values(|b: BootSession| session_view(b)) == #[trigger] sessions_as_of(
                text@,
                day,
                minute,
            ),
{
    let (day, hour, minute_of_hour) = local_now();
    let minute: u32 = hour * 60 + minute_of_hour;
    let r = parse_last_output(text, day, minute);
    assert(r@.map_values(|b: BootSession| session_view(b)) == sessions_as_of(text@, day as int, minute as int));
    r
}

/// Minutes the first `n` sessions credit to day `d`.
pub open spec fn minutes_on(s: Seq<BootSession>, d: int, n: int) -> int
    decreases n,
{
    if n <= 0 || n > s.len() {
        0
    } else {
        minutes_on(s, d, n - 1) + if s[n - 1].date == d {
            s[n - 1].minutes as int
        } else {
            0
        }
    }
}

/// At most a full day (1440 minutes).
pub open spec fn capped(x: int) -> int {
    if x < 1440 {
        x
    } else {
        1440
    }
}

/// The dates the first `n` sessions carry.
pub open spec fn dates_in(s: Seq<BootSession>, n: int) -> Set<i64> {
    Set::new(|x: i64| exists|i: int| 0 <= i < n && s[i].date == x)
}

/// The daily rows for `s`: every date some session carries, once, in
/// ascending order, with the minutes credited to it capped at a full day.
pub open spec fn usage_rows(s: Seq<BootSession>, r: Seq<(i64, u64)>) -> bool {
    &&& r.map_values(|p: (i64, u64)| p.0).to_set() == dates_in(s, s.len() as int)
    &&& forall|k: int| 0 <= k < r.len() ==> #[trigger] r[k].1 == capped(minutes_on(s, r[k].0 as int, s.len() as int))
    &&& forall|j: int, k: int| 0 <= j < k < r.len() ==> #[trigger] r[j].0 < #[trigger] r[k].0
}

proof fn lemma_insert_to_set(v: Seq<i64>, p: int, x: i64)
    requires
        0 <= p <= v.len(),
    ensures
        v.insert(p, x).to_set() == v.to_set().insert(x),
{
    let a = v.insert(p, x);
    assert forall|r: i64| a.contains(r) <==> (v.contains(r) || r == x) by {
        if a.contains(r) {
            let k = choose|k: int| 0 <= k < a.len() && a[k] == r;
            if k < p {
                assert(v[k] == r);
            } else if k > p {
                assert(v[k - 1] == r);
            }
        }
        if v.contains(r) {
            let k = choose|k: int| 0 <= k < v.len() && v[k] == r;
            if k < p {
                assert(a[k] == r);
            } else {
                assert(a[k + 1] == r);
            }
        }
        if r == x {
            assert(a[p] == r);
        }
    }
    assert(a.to_set() =~= v.to_set().insert(x));
}

/// The dates of `s`, each once, ascending.
fn sorted_dates(s: &[BootSession]) -> (d: Vec<i64>)
    ensures
        d@.to_set() == dates_in(s@, s@.len() as int),
        forall|j: int, k: int| 0 <= j < k < d@.len() ==> #[trigger] d@[j] < #[trigger] d@[k],
{
    let mut d: Vec<i64> = Vec::new();
    let mut i: usize = 0;
    assert(d@.to_set() =~= dates_in(s@, 0));
    while i < s.len()
        invariant
            i <= s@.len(),
            d@.to_set() == dates_in(s@, i as int),
            forall|j: int, k: int| 0 <= j < k < d@.len() ==> #[trigger] d@[j] < #[trigger] d@[k],
        decreases s@.len() - i,
    {
        let x = s[i].date;
        let mut p: usize = 0;
        while p < d.len() && d[p] < x
            invariant
                p <= d@.len(),
                forall|q: int| 0 <= q < p ==> #[trigger] d@[q] < x,
            decreases d@.len() - p,
        {
            p = p + 1;
        }
        let ghost d0 = d@;
        proof {
            assert(dates_in(s@, i + 1) =~= dates_in(s@, i as int).insert(x)) by {
                assert forall|y: i64| dates_in(s@, i + 1).contains(y) implies dates_in(s@, i as int).insert(x).contains(y) by {
                    let j = choose|j: int| 0 <= j < i + 1 && s@[j].date == y;
                    if j < i {
                        assert(dates_in(s@, i as int).contains(y));
                    }
                }
                assert forall|y: i64| dates_in(s@, i as int).insert(x).contains(y) implies dates_in(s@, i + 1).contains(y) by {
                    if y == x {
                        assert(s@[i as int].date == y);
                    } else {
                        let j = choose|j: int| 0 <= j < i && s@[j].date == y;
                    }
                }
            }
        }
        if p < d.len() && d[p] == x {
            proof {
                assert(d0.to_set().contains(x)) by {
                    assert(d0[p as int] == x);
                }
                assert(d0.to_set().insert(x) =~= d0.to_set());
            }
        } else {
            d.insert(p, x);
            proof {
                lemma_insert_to_set(d0, p as int, x);
                assert forall|j: int, k: int| 0 <= j < k < d@.len() implies #[trigger] d@[j] < #[trigger] d@[k] by {
                    if k < p {
                        assert(d@[j] == d0[j] && d@[k] == d0[k]);
                    } else if k == p {
                        assert(d@[j] == d0[j]);
                    } else if j < p {
                        assert(d@[j] == d0[j] && d@[k] == d0[k - 1]);
                    } else if j == p {
                        assert(d@[k] == d0[k - 1]);
                        assert(d0[p as int] >= x);
                        if k - 1 > p {
                            assert(d0[p as int] < d0[k - 1]);
                        }
                    } else {
                        assert(d@[j] == d0[j - 1] && d@[k] == d0[k - 1]);
                    }
                }
            }
        }
        i = i + 1;
    }
    d
}

/// Minutes credited to day `day`, capped at a full day after every session
/// (which comes to the same as capping the sum).
fn capped_minutes_on(s: &[BootSession], day: i64) -> (r: u64)
    requires
        forall|i: int| 0 <= i < s@.len() ==> #[trigger] s@[i].minutes <= u64::MAX - 1440,
    ensures
        r == capped(minutes_on(s@, day as int, s@.len() as int)),
{
    let mut e: u64 = 0;
    let mut i: usize = 0;
    while i < s.len()
        invariant
            i <= s@.len(),
            forall|j: int| 0 <= j < s@.len() ==> #[trigger] s@[j].minutes <= u64::MAX - 1440,
            e == capped(minutes_on(s@, day as int, i as int)),
            minutes_on(s@, day as int, i as int) >= 0,
        decreases s@.len() - i,
    {
        if s[i].date == day {
            let sum = e + s[i].minutes;
            e = if sum < 1440 { sum } else { 1440 };
        }
        i = i + 1;
    }
    e
}

/// Sums BootSession minutes per calendar date, ascending. Capped at 1440 —
/// overlapping `last` records (which do occur after an unclean shutdown)
/// could otherwise report more than 24 hours of uptime in one day.
pub fn daily_usage_minutes(sessions: &[BootSession]) -> (r: Vec<(i64, u64)>)
    requires
        forall|i: int| 0 <= i < sessions@.len() ==> #[trigger] sessions@[i].minutes <= u64::MAX - 1440,
    ensures
        usage_rows(sessions@, r@),
{
    let dates = sorted_dates(sessions);
    let mut out: Vec<(i64, u64)> = Vec::new();
    let mut k: usize = 0;
    while k < dates.len()
        invariant
            k <= dates@.len(),
            out@.len() == k,
            forall|i: int| 0 <= i < sessions@.len() ==> #[trigger] sessions@[i].minutes <= u64::MAX - 1440,
            forall|j: int| 0 <= j < k ==> #[trigger] out@[j].0 == dates@[j] && out@[j].1 == capped(minutes_on(sessions@, dates@[j] as int, sessions@.len() as int)),
        decreases dates@.len() - k,
    {
        let total = capped_minutes_on(sessions, dates[k]);
        out.push((dates[k], total));
        k = k + 1;
    }
    proof {
        assert(out@.map_values(|p: (i64, u64)| p.0) =~= dates@);
        assert forall|j: int, k: int| 0 <= j < k < out@.len() implies #[trigger] out@[j].0 < #[trigger] out@[k].0 by {
            assert(out@[j].0 == dates@[j] && out@[k].0 == dates@[k]);
        }
    }
    out
}

/// The earliest date of `s`, or `None` when `s` is empty.
pub open spec fn earliest(s: Seq<BootSession>, r: Option<i64>) -> bool {
    match r {
        None => s.len() == 0,
        Some(d) => (exists|i: int| 0 <= i < s.len() && s[i].date == d) && forall|i: int| 0 <= i < s.len() ==> d <= #[trigger] s[i].date,
    }
}

/// The earliest date any parsed boot record covers. The UI uses this to avoid
/// charting zeros for days that simply predate the `wtmp` log.
pub fn history_starts_on(sessions: &[BootSession]) -> (r: Option<i64>)
    ensures
        earliest(sessions@, r),
{
    let mut best: Option<i64> = None;
    let mut i: usize = 0;
    while i < sessions.len()
        invariant
            i <= sessions@.len(),
            earliest(sessions@.take(i as int), best),
        decreases sessions@.len() - i,
    {
        let d = sessions[i].date;
        let ghost t = sessions@.take(i as int);
        let ghost t1 = sessions@.take(i + 1);
        best = match best {
            None => Some(d),
            Some(b) => if d < b { Some(d) } else { Some(b) },
        };
        proof {
            assert forall|j: int| 0 <= j < i + 1 implies t1[j] == sessions@[j] by {}
            assert forall|j: int| 0 <= j < i implies t[j] == sessions@[j] by {}
            match best {
                Some(b) => {
                    if b == d {
                        assert(t1[i as int].date == b);
                    } else {
                        let j = choose|j: int| 0 <= j < t.len() && t[j].date == b;
                        assert(t1[j].date == b);
                    }
                    assert forall|j: int| 0 <= j < t1.len() implies b <= #[trigger] t1[j].date by {
                        if j < i {
                            assert(t1[j] == t[j]);
                        }
                    }
                },
                None => {},
            }
        }
        i = i + 1;
    }
    assert(sessions@.take(sessions@.len() as int) =~= sessions@);
    best
}
/// The minutes of all pieces.
pub open spec fn pieces_total(p: Seq<(int, nat)>) -> nat
    decreases p.len(),
{
    if p.len() == 0 {
        0
    } else {
        p[0].1 + pieces_total(p.skip(1))
    }
}

/// Splitting at midnights neither loses nor invents time: the pieces add up
/// to the whole span, fall on consecutive dates from the first day, and
/// each credits its day between one minute and a full day.
pub proof fn lemma_split_keeps_minutes(day: int, minute: int, minutes: nat)
    requires
        0 <= minute < 1440,
    ensures
        pieces_total(split_from(day, minute, minutes)) == minutes,
        forall|k: int|
            0 <= k < split_from(day, minute, minutes).len() ==> {
                &&& #[trigger] split_from(day, minute, minutes)[k].0 == day + k
                &&& 0 < split_from(day, minute, minutes)[k].1 <= 1440
            },
    decreases minutes,
{
    if minutes > 0 {
        let until = 1440 - minute;
        let chunk: nat = if minutes < until { minutes } else { until as nat };
        let rest = split_from(day + 1, 0, (minutes - chunk) as nat);
        lemma_split_keeps_minutes(day + 1, 0, (minutes - chunk) as nat);
        let whole = split_from(day, minute, minutes);
        assert(whole == seq![(day, chunk)] + rest);
        assert(whole.skip(1) =~= rest);
        assert forall|k: int| 0 <= k < whole.len() implies {
            &&& #[trigger] whole[k].0 == day + k
            &&& 0 < whole[k].1 <= 1440
        } by {
            if k > 0 {
                assert(whole[k] == rest[k - 1]);
            }
        }
    }
}

/// A boot that is "still running" is credited the time from the instant it
/// began (its own date, as `last` prints it and resolved against `today`,
/// at its start time) up to `now`, never less than nothing. Its pieces add
/// up to that time, the first falling on the boot's own date, so a boot
/// begun on an earlier day is credited the hours across midnight.
pub proof fn lemma_still_running_counts_until_now(line: Seq<char>, today: int, now: int)
    requires
        boot_span(line, today, now) is Some,
        words(line).len() > 8,
        words(line)[8] == "still"@,
    ensures
        ({
            let ws = words(line);
            let (d, t, m) = boot_span(line, today, now)->0;
            let began = d * 1440 + t;
            let owed = if now > began {
                now - began
            } else {
                0
            };
            let pieces = sessions_in_lines(seq![line], today, now);
            &&& month_of(ws[5]) matches Some(month) && parse_uint(ws[6], u32::MAX as nat) matches Some(day)
                && resolved_date(month, day as int, today) == Some(d)
            &&& minute_of_day(ws[7]) == Some(t)
            &&& m == owed
            &&& pieces_total(pieces) == owed
            &&& owed > 0 ==> pieces.len() > 0 && pieces[0].0 == d
        }),
{
    let (d, t, m) = boot_span(line, today, now)->0;
    let one = seq![line];
    assert(one.drop_last() =~= Seq::<Seq<char>>::empty());
    assert(one.last() == line);
    assert(sessions_in_lines(one.drop_last(), today, now) == Seq::<(int, nat)>::empty());
    let pieces = sessions_in_lines(one, today, now);
    assert(pieces == Seq::<(int, nat)>::empty() + split_from(d, t, m));
    assert(pieces =~= split_from(d, t, m));
    lemma_split_keeps_minutes(d, t, m);
    if m > 0 {
        assert(split_from(d, t, m)[0].0 == d + 0);
    }
}

} // verus!

