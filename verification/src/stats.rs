//! Focus statistics over the logged work sessions.
use vstd::prelude::*;
use crate::text::{chars_of, string_of, push_str, push_dec, push_pad2, dec, pad2, trim};
use crate::dates::{parsed_ymd, parse_ymd, local_today, weekday, weekday_from_monday};

verus! {

#[derive(Debug, Clone)]
pub struct SessionRecord {
    /// Local calendar date the session ended on, "YYYY-MM-DD".
    pub date: String,
    /// Empty string means "no project".
    pub project: String,
    pub seconds: u64,
    pub ended_at_epoch: i64,
    /// `None` = logged before completion-tracking existed (unknown, not
    /// "skipped"). `Some(true)` = the work phase ended naturally.
    /// `Some(false)` = ended via skip or stop.
    pub completed: Option<bool>,
}

pub struct CompletionSummary {
    pub completed: u32,
    pub skipped_or_stopped: u32,
    /// Sessions logged before completion-tracking existed — surfaced as its
    /// own bucket rather than folded into either count above.
    pub unknown: u32,
}

/// How many of the first `n` records have completion state `c`.
pub open spec fn count_with(s: Seq<SessionRecord>, c: Option<bool>, n: int) -> nat
    decreases n,
{
    if n <= 0 || n > s.len() {
        0
    } else {
        count_with(s, c, n - 1) + if s[n - 1].completed == c {
            1nat
        } else {
            0nat
        }
    }
}

proof fn lemma_count_with_le(s: Seq<SessionRecord>, c: Option<bool>, n: int)
    requires
        0 <= n <= s.len(),
    ensures
        count_with(s, c, n) <= n,
    decreases n,
{
    if n > 0 {
        lemma_count_with_le(s, c, n - 1);
    }
}

/// Counts natural-completion vs skip/stop vs pre-tracking-unknown, over all
/// history (mirrors summary()'s all-time scope, not date-scoped).
pub fn completion_summary(sessions: &[SessionRecord]) -> (r: CompletionSummary)
    requires
        sessions@.len() <= u32::MAX,
    ensures
        r.completed == count_with(sessions@, Some(true), sessions@.len() as int),
        r.skipped_or_stopped == count_with(sessions@, Some(false), sessions@.len() as int),
        r.unknown == count_with(sessions@, None, sessions@.len() as int),
{
    let mut summary = CompletionSummary { completed: 0, skipped_or_stopped: 0, unknown: 0 };
    let mut i: usize = 0;
    while i < sessions.len()
        invariant
            i <= sessions@.len() <= u32::MAX,
            summary.completed == count_with(sessions@, Some(true), i as int),
            summary.skipped_or_stopped == count_with(sessions@, Some(false), i as int),
            summary.unknown == count_with(sessions@, None, i as int),
        decreases sessions@.len() - i,
    {
        proof {
            lemma_count_with_le(sessions@, Some(true), i as int);
            lemma_count_with_le(sessions@, Some(false), i as int);
            lemma_count_with_le(sessions@, None, i as int);
        }
        match sessions[i].completed {
            Some(true) => summary.completed = summary.completed + 1,
            Some(false) => summary.skipped_or_stopped = summary.skipped_or_stopped + 1,
            None => summary.unknown = summary.unknown + 1,
        }
        i = i + 1;
    }
    summary
}

/// `~/.config/pawpause/sessions.json`, where the session log is kept.
pub fn sessions_path() -> (r: String)
    ensures
        exists|home: Option<Seq<char>>| r@ == crate::config::pawpause_file_under(home, "sessions.json"@),
{
    crate::config::pawpause_file_in_home("sessions.json")
}

/// Appends a finished work session dated `date` ("YYYY-MM-DD", local) and
/// ended at `ended_at_epoch`. `seconds` is how long the work phase actually
/// ran (natural completion, skip, or stop all count); a session of no
/// seconds is not logged. `completed` tells a natural phase end from a
/// skip or stop. Returns whether a record was added.
pub fn log_session(
    sessions: &mut Vec<SessionRecord>,
    project: &str,
    seconds: u64,
    completed: bool,
    date: String,
    ended_at_epoch: i64,
) -> (logged: bool)
    ensures
        logged == (seconds > 0),
        !logged ==> final(sessions)@ == old(sessions)@,
        logged ==> {
            &&& final(sessions)@.len() == old(sessions)@.len() + 1
            &&& final(sessions)@.drop_last() == old(sessions)@
            &&& final(sessions)@.last().date == date
            &&& final(sessions)@.last().project@ == project@
            &&& final(sessions)@.last().seconds == seconds
            &&& final(sessions)@.last().ended_at_epoch == ended_at_epoch
            &&& final(sessions)@.last().completed == Some(completed)
        },
{
    if seconds == 0 {
        return false;
    }
    sessions.push(
        SessionRecord {
            date,
            project: String::from_str(project),
            seconds,
            ended_at_epoch,
            completed: Some(completed),
        },
    );
    assert(sessions@.drop_last() =~= old(sessions)@);
    true
}

/// `hh:mm` for a number of seconds: whole hours (at least two digits), then
/// the minutes past the hour.
pub open spec fn hhmm(seconds: nat) -> Seq<char> {
    pad2(seconds / 3600) + ":"@ + pad2((seconds % 3600) / 60)
}

pub fn format_hhmm(seconds: u64) -> (r: String)
    ensures
        r@ == hhmm(seconds as nat),
{
    let mut out: Vec<char> = Vec::new();
    push_pad2(&mut out, seconds / 3600);
    push_str(&mut out, ":");
    push_pad2(&mut out, (seconds % 3600) / 60);
    string_of(out)
}

/// Human-scaled duration: whole minutes as `"34m"`, `"2h 15m"` or `"3h"`.
pub open spec fn human_duration(seconds: nat) -> Seq<char> {
    let minutes = seconds / 60;
    let h = minutes / 60;
    let m = minutes % 60;
    if h == 0 {
        dec(m) + "m"@
    } else if m == 0 {
        dec(h) + "h"@
    } else {
        dec(h) + "h "@ + dec(m) + "m"@
    }
}

pub(crate) fn push_duration(out: &mut Vec<char>, seconds: u64)
    ensures
        final(out)@ == old(out)@ + human_duration(seconds as nat),
{
    let minutes = seconds / 60;
    let h = minutes / 60;
    let m = minutes % 60;
    let ghost start = out@;
    if h == 0 {
        push_dec(out, m);
        push_str(out, "m");
    } else if m == 0 {
        push_dec(out, h);
        push_str(out, "h");
    } else {
        push_dec(out, h);
        push_str(out, "h ");
        push_dec(out, m);
        push_str(out, "m");
    }
    assert(out@ =~= start + human_duration(seconds as nat));
}

/// Human-scaled duration for headline figures: "34m", "2h 15m", "3h".
/// Preferred over `format_hhmm` on stat tiles — rendering 34 minutes of real
/// work as "0.6" hours (or "00:34") reads like a rounding error rather than
/// an achievement, which actively demotivates on a nearly-empty history.
pub fn format_duration(seconds: u64) -> (r: String)
    ensures
        r@ == human_duration(seconds as nat),
{
    let mut out: Vec<char> = Vec::new();
    push_duration(&mut out, seconds);
    assert(out@ =~= human_duration(seconds as nat));
    string_of(out)
}

/// The encouragement line for `today` focused seconds against a daily goal
/// of `goal_minutes` (0 = no goal) with a `streak`-day streak.
pub open spec fn encouragement_line(today: nat, goal_minutes: nat, streak: nat) -> Seq<char> {
    let goal_secs = goal_minutes * 60;
    if goal_minutes > 0 && today >= goal_secs {
        if streak <= 1 {
            "Goal met today. That's the hard part done."@
        } else {
            "Goal met — "@ + dec(streak) + " days running. Momentum is real."@
        }
    } else if today == 0 {
        if streak == 0 {
            "No sessions yet. One 25-minute block is enough to start."@
        } else {
            dec(streak) + "-day streak on the line. One session keeps it alive."@
        }
    } else if goal_minutes > 0 {
        let left = (goal_secs - today + 59) / 60;
        dec(left as nat) + " more minutes to hit today's goal."@
    } else {
        human_duration(today) + " focused so far today."@
    }
}

/// A short, honest, second-person line about the current state — the one
/// piece of "cheering" the UI does. Deliberately never invents a milestone
/// that hasn't happened: with no data it invites a first session rather than
/// congratulating the user for nothing.
pub fn encouragement(today: u64, goal_minutes: u32, streak: u32) -> (r: String)
    ensures
        r@ == encouragement_line(today as nat, goal_minutes as nat, streak as nat),
{
    let goal_secs: u64 = goal_minutes as u64 * 60;
    let mut out: Vec<char> = Vec::new();
    if goal_minutes > 0 && today >= goal_secs {
        if streak <= 1 {
            push_str(&mut out, "Goal met today. That's the hard part done.");
        } else {
            push_str(&mut out, "Goal met — ");
            push_dec(&mut out, streak as u64);
            push_str(&mut out, " days running. Momentum is real.");
        }
    } else if today == 0 {
        if streak == 0 {
            push_str(&mut out, "No sessions yet. One 25-minute block is enough to start.");
        } else {
            push_dec(&mut out, streak as u64);
            push_str(&mut out, "-day streak on the line. One session keeps it alive.");
        }
    } else if goal_minutes > 0 {
        let short: u64 = goal_secs - today;
        let left: u64 = short / 60 + if short % 60 > 0 { 1 } else { 0 };
        proof {
            assert(left == (short + 59) / 60) by (nonlinear_arith)
                requires
                    left == short / 60 + if short % 60 > 0 { 1int } else { 0int },
            ;
        }
        push_dec(&mut out, left);
        push_str(&mut out, " more minutes to hit today's goal.");
    } else {
        push_duration(&mut out, today);
        push_str(&mut out, " focused so far today.");
    }
    assert(out@ =~= encouragement_line(today as nat, goal_minutes as nat, streak as nat));
    string_of(out)
}


/// The dates `ds` are the records' dates as chrono parses them.
pub open spec fn dates_parsed(s: Seq<SessionRecord>, ds: Seq<Option<i32>>) -> bool {
    &&& ds.len() == s.len()
    &&& forall|i: int| 0 <= i < s.len() ==> #[trigger] parsed_ymd(s[i].date@) == match ds[i] {
        Some(d) => Some(d as int),
        None => None,
    }
}

/// Each record's date, parsed (`None` where it does not parse).
pub fn session_dates(sessions: &[SessionRecord]) -> (r: Vec<Option<i32>>)
    ensures
        dates_parsed(sessions@, r@),
{
    let mut out: Vec<Option<i32>> = Vec::new();
    let mut i: usize = 0;
    while i < sessions.len()
        invariant
            i <= sessions@.len(),
            out@.len() == i,
            forall|k: int| 0 <= k < i ==> #[trigger] parsed_ymd(sessions@[k].date@) == match out@[k] {
                Some(d) => Some(d as int),
                None => None,
            },
        decreases sessions@.len() - i,
    {
        out.push(parse_ymd(sessions[i].date.as_str()));
        i = i + 1;
    }
    out
}

/// Total seconds of all of the first `n` records.
pub open spec fn total_secs(s: Seq<SessionRecord>, n: int) -> int
    decreases n,
{
    if n <= 0 || n > s.len() {
        0
    } else {
        total_secs(s, n - 1) + s[n - 1].seconds
    }
}

/// Total seconds of the first `n` records dated within `lo..=hi`.
pub open spec fn secs_between(s: Seq<SessionRecord>, ds: Seq<Option<i32>>, lo: int, hi: int, n: int) -> int
    decreases n,
{
    if n <= 0 || n > s.len() || n > ds.len() {
        0
    } else {
        secs_between(s, ds, lo, hi, n - 1) + match ds[n - 1] {
            Some(d) => if lo <= d && d <= hi {
                s[n - 1].seconds as int
            } else {
                0
            },
            None => 0,
        }
    }
}

/// Total seconds of the first `n` records dated within `lo..=hi` on the
/// weekday `w`.
pub open spec fn secs_on_weekday(s: Seq<SessionRecord>, ds: Seq<Option<i32>>, lo: int, hi: int, w: int, n: int) -> int
    decreases n,
{
    if n <= 0 || n > s.len() || n > ds.len() {
        0
    } else {
        secs_on_weekday(s, ds, lo, hi, w, n - 1) + match ds[n - 1] {
            Some(d) => if lo <= d && d <= hi && weekday(d as int) == w {
                s[n - 1].seconds as int
            } else {
                0
            },
            None => 0,
        }
    }
}

proof fn lemma_total_mono(s: Seq<SessionRecord>, k: int, n: int)
    requires
        0 <= k <= n <= s.len(),
    ensures
        0 <= total_secs(s, k) <= total_secs(s, n),
    decreases n - k,
{
    if k < n {
        lemma_total_mono(s, k, n - 1);
    } else {
        lemma_total_nonneg(s, k);
    }
}

proof fn lemma_total_nonneg(s: Seq<SessionRecord>, n: int)
    ensures
        0 <= total_secs(s, n),
    decreases n,
{
    if n > 0 {
        lemma_total_nonneg(s, n - 1);
    }
}

proof fn lemma_between_le_total(s: Seq<SessionRecord>, ds: Seq<Option<i32>>, lo: int, hi: int, n: int)
    requires
        0 <= n <= s.len(),
        ds.len() == s.len(),
    ensures
        0 <= secs_between(s, ds, lo, hi, n) <= total_secs(s, n),
    decreases n,
{
    if n > 0 {
        lemma_between_le_total(s, ds, lo, hi, n - 1);
    }
}

proof fn lemma_weekday_le_total(s: Seq<SessionRecord>, ds: Seq<Option<i32>>, lo: int, hi: int, w: int, n: int)
    requires
        0 <= n <= s.len(),
        ds.len() == s.len(),
    ensures
        0 <= secs_on_weekday(s, ds, lo, hi, w, n) <= total_secs(s, n),
    decreases n,
{
    if n > 0 {
        lemma_weekday_le_total(s, ds, lo, hi, w, n - 1);
    }
}

/// Seconds of the records dated within `lo..=hi`.
fn seconds_between(sessions: &[SessionRecord], dates: &[Option<i32>], lo: i64, hi: i64) -> (r: u64)
    requires
        dates@.len() == sessions@.len(),
        total_secs(sessions@, sessions@.len() as int) <= u64::MAX,
    ensures
        r == secs_between(sessions@, dates@, lo as int, hi as int, sessions@.len() as int),
{
    let mut total: u64 = 0;
    let mut i: usize = 0;
    while i < sessions.len()
        invariant
            dates@.len() == sessions@.len(),
            i <= sessions@.len(),
            total_secs(sessions@, sessions@.len() as int) <= u64::MAX,
            total == secs_between(sessions@, dates@, lo as int, hi as int, i as int),
        decreases sessions@.len() - i,
    {
        proof {
            lemma_between_le_total(sessions@, dates@, lo as int, hi as int, (i + 1) as int);
            lemma_total_mono(sessions@, (i + 1) as int, sessions@.len() as int);
        }
        match dates[i] {
            Some(d) => {
                if lo <= d as i64 && d as i64 <= hi {
                    total = total + sessions[i].seconds;
                }
            },
            None => {},
        }
        i = i + 1;
    }
    total
}

/// Focused seconds logged on the day `today`.
pub fn today_seconds_on(sessions: &[SessionRecord], dates: &[Option<i32>], today: i32) -> (r: u64)
    requires
        dates@.len() == sessions@.len(),
        total_secs(sessions@, sessions@.len() as int) <= u64::MAX,
    ensures
        r == secs_between(sessions@, dates@, today as int, today as int, sessions@.len() as int),
{
    seconds_between(sessions, dates, today as i64, today as i64)
}

/// Focused seconds logged today (local time).
pub fn today_seconds(sessions: &[SessionRecord]) -> (r: u64)
    requires
        total_secs(sessions@, sessions@.len() as int) <= u64::MAX,
    ensures
        exists|ds: Seq<Option<i32>>, today: i32|
            dates_parsed(sessions@, ds) && r == secs_between(sessions@, ds, today as int, today as int, sessions@.len() as int),
{
    let today = local_today();
    let dates = session_dates(sessions);
    today_seconds_on(sessions, dates.as_slice(), today)
}

/// `(this week, last week)` for `today`: the seconds from this week's Monday
/// through today, and from last week's Monday through the same weekday.
pub open spec fn week_over_week_of(s: Seq<SessionRecord>, ds: Seq<Option<i32>>, today: int) -> (int, int) {
    let days_in = weekday(today);
    let this_start = today - days_in;
    let last_start = this_start - 7;
    let last_end = last_start + days_in;
    (secs_between(s, ds, this_start, today, s.len() as int), secs_between(s, ds, last_start, last_end, s.len() as int))
}

pub fn week_over_week_on(sessions: &[SessionRecord], dates: &[Option<i32>], today: i32) -> (r: (u64, u64))
    requires
        dates@.len() == sessions@.len(),
        total_secs(sessions@, sessions@.len() as int) <= u64::MAX,
    ensures
        (r.0 as int, r.1 as int) == week_over_week_of(sessions@, dates@, today as int),
{
    let days_in = weekday_from_monday(today) as i64;
    let this_start = today as i64 - days_in;
    let last_start = this_start - 7;
    let last_end = last_start + days_in;
    let this_week = seconds_between(sessions, dates, this_start, today as i64);
    let last_week = seconds_between(sessions, dates, last_start, last_end);
    (this_week, last_week)
}

/// Focused seconds in the current local week (Monday-start), and in the
/// equivalent slice of the previous week — compared day-for-day (the same
/// weekday position) so a Tuesday isn't measured against a full 7-day week
/// and made to look like a collapse.
pub fn week_over_week(sessions: &[SessionRecord]) -> (r: (u64, u64))
    requires
        total_secs(sessions@, sessions@.len() as int) <= u64::MAX,
    ensures
        exists|ds: Seq<Option<i32>>, today: i32|
            dates_parsed(sessions@, ds) && (r.0 as int, r.1 as int) == week_over_week_of(sessions@, ds, today as int),
{
    let today = local_today();
    let dates = session_dates(sessions);
    week_over_week_on(sessions, dates.as_slice(), today)
}

/// The zero-filled daily totals for the `days` days ending `today`,
/// ascending: entry `k` is the day `today - (days - 1 - k)`.
pub open spec fn daily_totals(s: Seq<SessionRecord>, ds: Seq<Option<i32>>, today: int, days: int, r: Seq<(i32, u64)>) -> bool {
    &&& r.len() == days
    &&& forall|k: int|
        0 <= k < days ==> {
            let d = today - (days - 1 - k);
            &&& #[trigger] r[k].0 == d
            &&& r[k].1 == secs_between(s, ds, d, d, s.len() as int)
        }
}

pub fn daily_breakdown_on(sessions: &[SessionRecord], dates: &[Option<i32>], today: i32, days: u32) -> (r: Vec<(i32, u64)>)
    requires
        dates@.len() == sessions@.len(),
        total_secs(sessions@, sessions@.len() as int) <= u64::MAX,
        today - days >= i32::MIN,
    ensures
        daily_totals(sessions@, dates@, today as int, days as int, r@),
{
    let mut out: Vec<(i32, u64)> = Vec::new();
    let mut k: u32 = 0;
    while k < days
        invariant
            dates@.len() == sessions@.len(),
            total_secs(sessions@, sessions@.len() as int) <= u64::MAX,
            today - days >= i32::MIN,
            k <= days,
            out@.len() == k,
            forall|j: int|
                0 <= j < k ==> {
                    let d = today - (days - 1 - j);
                    &&& #[trigger] out@[j].0 == d
                    &&& out@[j].1 == secs_between(sessions@, dates@, d, d, sessions@.len() as int)
                },
        decreases days - k,
    {
        let offset: i64 = (days - 1 - k) as i64;
        let d: i32 = (today as i64 - offset) as i32;
        let total = seconds_between(sessions, dates, d as i64, d as i64);
        out.push((d, total));
        k = k + 1;
    }
    out
}

/// Zero-filled, ascending-date focused-seconds totals for the last `days`
/// calendar days ending today (inclusive). Feeds both a trend/area chart and
/// a calendar heatmap — same shape, different renderers.
pub fn daily_breakdown(sessions: &[SessionRecord], days: u32) -> (r: Vec<(i32, u64)>)
    requires
        total_secs(sessions@, sessions@.len() as int) <= u64::MAX,
        days <= 100_000_000,
    ensures
        exists|ds: Seq<Option<i32>>, today: i32|
            dates_parsed(sessions@, ds) && #[trigger] daily_totals(sessions@, ds, today as int, days as int, r@),
{
    let today = local_today();
    let dates = session_dates(sessions);
    daily_breakdown_on(sessions, dates.as_slice(), today, days)
}

/// Per-weekday totals (Monday = 0) over the `weeks` weeks before `today`
/// through `today`.
pub open spec fn weekday_totals(s: Seq<SessionRecord>, ds: Seq<Option<i32>>, today: int, weeks: int, r: Seq<u64>) -> bool {
    &&& r.len() == 7
    &&& forall|w: int| 0 <= w < 7 ==> #[trigger] r[w] == secs_on_weekday(s, ds, today - weeks * 7, today, w, s.len() as int)
}

pub fn weekday_profile_on(sessions: &[SessionRecord], dates: &[Option<i32>], today: i32, weeks: u32) -> (r: [u64; 7])
    requires
        dates@.len() == sessions@.len(),
        total_secs(sessions@, sessions@.len() as int) <= u64::MAX,
    ensures
        weekday_totals(sessions@, dates@, today as int, weeks as int, r@),
{
    let cutoff: i64 = today as i64 - weeks as i64 * 7;
    let mut profile: [u64; 7] = [0, 0, 0, 0, 0, 0, 0];
    let mut i: usize = 0;
    while i < sessions.len()
        invariant
            dates@.len() == sessions@.len(),
            i <= sessions@.len(),
            total_secs(sessions@, sessions@.len() as int) <= u64::MAX,
            cutoff == today - weeks * 7,
            forall|w: int| 0 <= w < 7 ==> #[trigger] profile@[w] == secs_on_weekday(sessions@, dates@, cutoff as int, today as int, w, i as int),
        decreases sessions@.len() - i,
    {
        match dates[i] {
            Some(d) => {
                if cutoff <= d as i64 && d as i64 <= today as i64 {
                    let w = weekday_from_monday(d) as usize;
                    proof {
                        lemma_weekday_le_total(sessions@, dates@, cutoff as int, today as int, w as int, (i + 1) as int);
                        lemma_total_mono(sessions@, (i + 1) as int, sessions@.len() as int);
                    }
                    let cur = profile[w];
                    profile[w] = cur + sessions[i].seconds;
                }
            },
            None => {},
        }
        i = i + 1;
    }
    profile
}

/// Per-weekday focused seconds over the last `weeks` weeks, indexed
/// Monday=0..Sunday=6. Answers "when am I actually productive?" — a question
/// the raw daily series can't, and one that stays meaningful even with a
/// short history.
pub fn weekday_profile(sessions: &[SessionRecord], weeks: u32) -> (r: [u64; 7])
    requires
        total_secs(sessions@, sessions@.len() as int) <= u64::MAX,
    ensures
        exists|ds: Seq<Option<i32>>, today: i32| dates_parsed(sessions@, ds) && weekday_totals(sessions@, ds, today as int, weeks as int, r@),
{
    let today = local_today();
    let dates = session_dates(sessions);
    weekday_profile_on(sessions, dates.as_slice(), today, weeks)
}

/// The distinct dates the records carry.
pub open spec fn day_set(ds: Seq<Option<i32>>) -> Set<i32> {
    Set::new(|d: i32| exists|i: int| 0 <= i < ds.len() && ds[i] == Some(d))
}

/// The day number `x` is one of the dates in `days`.
pub open spec fn has_day(days: Set<i32>, x: int) -> bool {
    i32::MIN <= x <= i32::MAX && days.contains(x as i32)
}

/// `start`, `start - 1`, …, `start - (m - 1)` are all in `days` and
/// `start - m` is not: the run of consecutive days ending at `start` is `m`
/// long.
pub open spec fn is_run(days: Set<i32>, start: int, m: int) -> bool {
    &&& forall|k: int| 0 <= k < m ==> #[trigger] has_day(days, start - k)
    &&& !has_day(days, start - m)
}

/// The day streak as of `today`: the run ending today, or — when nothing is
/// logged today yet — the run ending yesterday; otherwise none.
pub open spec fn streak_of(days: Set<i32>, today: int, streak: int) -> bool {
    if has_day(days, today) {
        is_run(days, today, streak)
    } else if has_day(days, today - 1) {
        is_run(days, today - 1, streak)
    } else {
        streak == 0
    }
}

/// Total focus, distinct days with focus, and the current day streak.
pub struct Summary {
    pub total_seconds: u64,
    pub days_accessed: u32,
    pub day_streak: u32,
}

/// What `summary_on` computes for the records `s` dated `ds` as of `today`.
pub open spec fn summary_of(s: Seq<SessionRecord>, ds: Seq<Option<i32>>, today: int, r: Summary) -> bool {
    &&& r.total_seconds == total_secs(s, s.len() as int)
    &&& r.days_accessed == day_set(ds).len()
    &&& streak_of(day_set(ds), today, r.day_streak as int)
}

/// How many of the first `n` entries of `u` are at most `c`.
pub open spec fn count_le(u: Seq<i32>, c: int, n: int) -> nat
    decreases n,
{
    if n <= 0 || n > u.len() {
        0
    } else {
        count_le(u, c, n - 1) + if u[n - 1] <= c {
            1nat
        } else {
            0nat
        }
    }
}

proof fn lemma_count_le_bound(u: Seq<i32>, c: int, n: int)
    requires
        0 <= n <= u.len(),
    ensures
        count_le(u, c, n) <= n,
    decreases n,
{
    if n > 0 {
        lemma_count_le_bound(u, c, n - 1);
    }
}

proof fn lemma_count_le_drop(u: Seq<i32>, c: int, n: int, j: int)
    requires
        0 <= j < n <= u.len(),
        u[j] == c,
    ensures
        count_le(u, c - 1, n) < count_le(u, c, n),
    decreases n,
{
    if j < n - 1 {
        lemma_count_le_drop(u, c, n - 1, j);
    } else {
        lemma_count_le_mono(u, c - 1, c, n - 1);
    }
}

proof fn lemma_count_le_mono(u: Seq<i32>, a: int, b: int, n: int)
    requires
        a <= b,
    ensures
        count_le(u, a, n) <= count_le(u, b, n),
    decreases n,
{
    if n > 0 && n <= u.len() {
        lemma_count_le_mono(u, a, b, n - 1);
    }
}

fn contains_day(v: &Vec<i32>, x: i64) -> (r: bool)
    ensures
        r == (exists|j: int| 0 <= j < v@.len() && v@[j] as int == x),
{
    let mut i: usize = 0;
    while i < v.len()
        invariant
            i <= v@.len(),
            forall|j: int| 0 <= j < i ==> v@[j] as int != x,
        decreases v@.len() - i,
    {
        if v[i] as i64 == x {
            return true;
        }
        i = i + 1;
    }
    false
}

/// The distinct dates in `dates`, each once.
fn distinct_days(dates: &[Option<i32>]) -> (u: Vec<i32>)
    ensures
        u@.no_duplicates(),
        u@.len() <= dates@.len(),
        forall|d: i32| u@.contains(d) <==> day_set(dates@).contains(d),
{
    let mut u: Vec<i32> = Vec::new();
    let mut i: usize = 0;
    while i < dates.len()
        invariant
            i <= dates@.len(),
            u@.no_duplicates(),
            u@.len() <= i,
            forall|d: i32| u@.contains(d) <==> (exists|j: int| 0 <= j < i && dates@[j] == Some(d)),
        decreases dates@.len() - i,
    {
        match dates[i] {
            Some(d) => {
                if !contains_day(&u, d as i64) {
                    let ghost before = u@;
                    u.push(d);
                    proof {
                        assert forall|e: i32| u@.contains(e) <==> (exists|j: int| 0 <= j < i + 1 && dates@[j] == Some(e)) by {
                            if u@.contains(e) {
                                let k = choose|k: int| 0 <= k < u@.len() && u@[k] == e;
                                if k < before.len() {
                                    assert(before.contains(e));
                                } else {
                                    assert(dates@[i as int] == Some(e));
                                }
                            }
                            if exists|j: int| 0 <= j < i + 1 && dates@[j] == Some(e) {
                                let j = choose|j: int| 0 <= j < i + 1 && dates@[j] == Some(e);
                                if j < i {
                                    assert(before.contains(e));
                                    let k = choose|k: int| 0 <= k < before.len() && before[k] == e;
                                    assert(u@[k] == e);
                                } else {
                                    assert(u@[before.len() as int] == e);
                                }
                            }
                        }
                    }
                } else {
                    proof {
                        assert forall|e: i32| u@.contains(e) <==> (exists|j: int| 0 <= j < i + 1 && dates@[j] == Some(e)) by {
                            if exists|j: int| 0 <= j < i + 1 && dates@[j] == Some(e) {
                                let j = choose|j: int| 0 <= j < i + 1 && dates@[j] == Some(e);
                                if j == i {
                                    let k = choose|k: int| 0 <= k < u@.len() && u@[k] as int == d as int;
                                    assert(u@[k] == e);
                                }
                            }
                        }
                    }
                }
            },
            None => {
                proof {
                    assert forall|e: i32| u@.contains(e) <==> (exists|j: int| 0 <= j < i + 1 && dates@[j] == Some(e)) by {
                        if exists|j: int| 0 <= j < i + 1 && dates@[j] == Some(e) {
                            let j = choose|j: int| 0 <= j < i + 1 && dates@[j] == Some(e);
                            assert(j < i);
                        }
                    }
                }
            },
        }
        i = i + 1;
    }
    u
}

/// The run of consecutive days in `u` ending at `start`.
fn run_ending_at(u: &Vec<i32>, start: i64) -> (m: u32)
    requires
        u@.len() <= u32::MAX,
        -200_000_000 <= start,
    ensures
        is_run(u@.to_set(), start as int, m as int),
{
    let mut streak: u32 = 0;
    let mut cursor: i64 = start;
    proof {
        lemma_count_le_bound(u@, cursor as int, u@.len() as int);
    }
    while contains_day(u, cursor)
        invariant
            u@.len() <= u32::MAX,
            cursor == start - streak,
            -200_000_000 <= start,
            streak + count_le(u@, cursor as int, u@.len() as int) <= u@.len(),
            forall|k: int| 0 <= k < streak ==> #[trigger] has_day(u@.to_set(), start - k),
        decreases count_le(u@, cursor as int, u@.len() as int),
    {
        let ghost j = choose|j: int| 0 <= j < u@.len() && u@[j] as int == cursor;
        proof {
            lemma_count_le_drop(u@, cursor as int, u@.len() as int, j);
            assert(u@.to_set().contains(u@[j]));
            assert(has_day(u@.to_set(), start - streak));
        }
        streak = streak + 1;
        cursor = cursor - 1;
    }
    proof {
        if has_day(u@.to_set(), start - streak) {
            let x = (start - streak) as i32;
            assert(u@.contains(x));
            let j = choose|j: int| 0 <= j < u@.len() && u@[j] == x;
            assert(u@[j] as int == cursor);
        }
    }
    streak
}

pub fn summary_on(sessions: &[SessionRecord], dates: &[Option<i32>], today: i32) -> (r: Summary)
    requires
        dates@.len() == sessions@.len(),
        sessions@.len() <= u32::MAX,
        total_secs(sessions@, sessions@.len() as int) <= u64::MAX,
        -100_000_000 <= today,
    ensures
        summary_of(sessions@, dates@, today as int, r),
{
    let mut total: u64 = 0;
    let mut i: usize = 0;
    while i < sessions.len()
        invariant
            i <= sessions@.len(),
            total_secs(sessions@, sessions@.len() as int) <= u64::MAX,
            total == total_secs(sessions@, i as int),
        decreases sessions@.len() - i,
    {
        proof {
            lemma_total_mono(sessions@, (i + 1) as int, sessions@.len() as int);
        }
        total = total + sessions[i].seconds;
        i = i + 1;
    }
    let u = distinct_days(dates);
    proof {
        u@.unique_seq_to_set();
        assert(u@.to_set() =~= day_set(dates@));
    }
    let days_accessed = u.len() as u32;
    let day_streak = if contains_day(&u, today as i64) {
        run_ending_at(&u, today as i64)
    } else if contains_day(&u, today as i64 - 1) {
        run_ending_at(&u, today as i64 - 1)
    } else {
        0
    };
    proof {
        let days = day_set(dates@);
        if has_day(days, today as int) {
            assert(u@.contains(today));
            let j = choose|j: int| 0 <= j < u@.len() && u@[j] == today;
            assert(u@[j] as int == today as int);
        } else if has_day(days, today - 1) {
            let x = (today - 1) as i32;
            assert(u@.contains(x));
            let j = choose|j: int| 0 <= j < u@.len() && u@[j] == x;
            assert(u@[j] as int == today - 1);
        } else {
            if exists|j: int| 0 <= j < u@.len() && u@[j] as int == today as int {
                let j = choose|j: int| 0 <= j < u@.len() && u@[j] as int == today as int;
                assert(u@.contains(u@[j]));
            }
            if exists|j: int| 0 <= j < u@.len() && u@[j] as int == today - 1 {
                let j = choose|j: int| 0 <= j < u@.len() && u@[j] as int == today - 1;
                assert(u@.contains(u@[j]));
            }
        }
    }
    Summary { total_seconds: total, days_accessed, day_streak }
}

/// Total focus, days with focus and the day streak, computed against "today"
/// in local time.
pub fn summary(sessions: &[SessionRecord]) -> (r: Summary)
    requires
        sessions@.len() <= u32::MAX,
        total_secs(sessions@, sessions@.len() as int) <= u64::MAX,
    ensures
        exists|ds: Seq<Option<i32>>, today: i32| dates_parsed(sessions@, ds) && #[trigger] summary_of(sessions@, ds, today as int, r),
{
    let today = local_today();
    let dates = session_dates(sessions);
    summary_on(sessions, dates.as_slice(), today)
}

/// Seconds logged on the day `d`.
pub open spec fn day_total(s: Seq<SessionRecord>, ds: Seq<Option<i32>>, d: int) -> int {
    secs_between(s, ds, d, d, s.len() as int)
}

/// The personal-best day: the date with the largest total, the latest such
/// date on a tie; `None` when no record has a date.
pub open spec fn best_day_of(s: Seq<SessionRecord>, ds: Seq<Option<i32>>, r: Option<(i32, u64)>) -> bool {
    match r {
        None => forall|i: int| 0 <= i < ds.len() ==> ds[i] is None,
        Some((d, t)) => {
            &&& day_set(ds).contains(d)
            &&& t == day_total(s, ds, d as int)
            &&& forall|e: i32| #[trigger] day_set(ds).contains(e) ==> (day_total(s, ds, e as int) < t || (day_total(
                s,
                ds,
                e as int,
            ) == t && e <= d))
        },
    }
}

pub fn best_day_on(sessions: &[SessionRecord], dates: &[Option<i32>]) -> (r: Option<(i32, u64)>)
    requires
        dates@.len() == sessions@.len(),
        total_secs(sessions@, sessions@.len() as int) <= u64::MAX,
    ensures
        best_day_of(sessions@, dates@, r),
{
    let u = distinct_days(dates);
    let mut best: Option<(i32, u64)> = None;
    let mut k: usize = 0;
    while k < u.len()
        invariant
            dates@.len() == sessions@.len(),
            total_secs(sessions@, sessions@.len() as int) <= u64::MAX,
            k <= u@.len(),
            forall|d: i32| u@.contains(d) <==> day_set(dates@).contains(d),
            match best {
                None => k == 0,
                Some((d, t)) => {
                    &&& day_set(dates@).contains(d)
                    &&& t == day_total(sessions@, dates@, d as int)
                    &&& forall|j: int| 0 <= j < k ==> (day_total(sessions@, dates@, u@[j] as int) < t || (day_total(
                        sessions@,
                        dates@,
                        u@[j] as int,
                    ) == t && u@[j] <= d))
                },
            },
        decreases u@.len() - k,
    {
        let d = u[k];
        assert(u@.contains(d));
        let t = seconds_between(sessions, dates, d as i64, d as i64);
        best = match best {
            None => Some((d, t)),
            Some((bd, bt)) => if t > bt || (t == bt && d > bd) {
                Some((d, t))
            } else {
                Some((bd, bt))
            },
        };
        k = k + 1;
    }
    proof {
        match best {
            None => {
                assert forall|i: int| 0 <= i < dates@.len() implies dates@[i] is None by {
                    if let Some(d) = dates@[i] {
                        assert(day_set(dates@).contains(d));
                        assert(u@.contains(d));
                    }
                }
            },
            Some((d, t)) => {
                assert forall|e: i32| #[trigger] day_set(dates@).contains(e) implies (day_total(sessions@, dates@, e as int) < t || (day_total(
                    sessions@,
                    dates@,
                    e as int,
                ) == t && e <= d)) by {
                    assert(u@.contains(e));
                    let j = choose|j: int| 0 <= j < u@.len() && u@[j] == e;
                }
            },
        }
    }
    best
}

/// The single best focused day on record, as `(date, seconds)`. Used as the
/// "personal best" reference a bar chart can normalize against, so today's
/// bar means "compared to your best" rather than always filling the row.
pub fn best_day(sessions: &[SessionRecord]) -> (r: Option<(i32, u64)>)
    requires
        total_secs(sessions@, sessions@.len() as int) <= u64::MAX,
    ensures
        exists|ds: Seq<Option<i32>>| dates_parsed(sessions@, ds) && #[trigger] best_day_of(sessions@, ds, r),
{
    let dates = session_dates(sessions);
    best_day_on(sessions, dates.as_slice())
}

/// Strict lexicographic order of character sequences (by code point, the
/// order `String`'s `Ord` gives, since UTF-8 preserves code-point order).
pub open spec fn lex_lt(a: Seq<char>, b: Seq<char>) -> bool
    decreases a.len(),
{
    if a.len() == 0 {
        b.len() > 0
    } else if b.len() == 0 {
        false
    } else if a[0] != b[0] {
        a[0] < b[0]
    } else {
        lex_lt(a.drop_first(), b.drop_first())
    }
}

pub(crate) proof fn lemma_lex_total(a: Seq<char>, b: Seq<char>)
    ensures
        a != b ==> (lex_lt(a, b) || lex_lt(b, a)),
        !(lex_lt(a, b) && lex_lt(b, a)),
        !lex_lt(a, a),
    decreases a.len(),
{
    if a.len() > 0 && b.len() > 0 && a[0] == b[0] {
        lemma_lex_total(a.drop_first(), b.drop_first());
        if a != b {
            if a.drop_first() == b.drop_first() {
                assert(a =~= seq![a[0]] + a.drop_first());
                assert(b =~= seq![b[0]] + b.drop_first());
            }
        }
    }
    if a.len() > 0 {
        lemma_lex_total(a.drop_first(), a.drop_first());
    }
    if a.len() == 0 && b.len() == 0 {
        assert(a =~= b);
    }
}

pub(crate) proof fn lemma_lex_trans(a: Seq<char>, b: Seq<char>, c: Seq<char>)
    requires
        lex_lt(a, b),
        lex_lt(b, c),
    ensures
        lex_lt(a, c),
    decreases a.len(),
{
    if a.len() > 0 && b.len() > 0 && c.len() > 0 && a[0] == b[0] && b[0] == c[0] {
        lemma_lex_trans(a.drop_first(), b.drop_first(), c.drop_first());
    }
}

pub(crate) fn lex_less(a: &Vec<char>, b: &Vec<char>) -> (r: bool)
    ensures
        r == lex_lt(a@, b@),
{
    let mut i: usize = 0;
    assert(a@.skip(0) =~= a@);
    assert(b@.skip(0) =~= b@);
    while i < a.len() && i < b.len() && a[i] == b[i]
        invariant
            i <= a@.len(),
            i <= b@.len(),
            lex_lt(a@.skip(i as int), b@.skip(i as int)) == lex_lt(a@, b@),
        decreases a@.len() - i,
    {
        proof {
            assert(a@.skip(i as int).drop_first() =~= a@.skip(i + 1));
            assert(b@.skip(i as int).drop_first() =~= b@.skip(i + 1));
        }
        i = i + 1;
    }
    assert(i < a@.len() ==> a@.skip(i as int)[0] == a@[i as int]);
    assert(i < b@.len() ==> b@.skip(i as int)[0] == b@[i as int]);
    if i == a.len() {
        i < b.len()
    } else if i == b.len() {
        false
    } else {
        a[i] < b[i]
    }
}

/// The row label of a record: its project, or "No project" when the project
/// is blank.
pub open spec fn label_of(r: SessionRecord) -> Seq<char> {
    if trim(r.project@).len() == 0 {
        "No project"@
    } else {
        r.project@
    }
}

/// Record `i` is dated within `lo..=hi`.
pub open spec fn in_window(ds: Seq<Option<i32>>, i: int, lo: int, hi: int) -> bool {
    ds[i] matches Some(d) && lo <= d && d <= hi
}

/// Seconds of the first `n` records in the window labelled `l`.
pub open spec fn label_secs(s: Seq<SessionRecord>, ds: Seq<Option<i32>>, lo: int, hi: int, l: Seq<char>, n: int) -> int
    decreases n,
{
    if n <= 0 || n > s.len() || n > ds.len() {
        0
    } else {
        label_secs(s, ds, lo, hi, l, n - 1) + if in_window(ds, n - 1, lo, hi) && label_of(s[n - 1]) == l {
            s[n - 1].seconds as int
        } else {
            0
        }
    }
}

/// The labels of the first `n` records in the window.
pub open spec fn labels_in(s: Seq<SessionRecord>, ds: Seq<Option<i32>>, lo: int, hi: int, n: int) -> Set<Seq<char>> {
    Set::new(|l: Seq<char>| exists|i: int| 0 <= i < n && in_window(ds, i, lo, hi) && label_of(s[i]) == l)
}

/// Row `a` comes before row `b`: more seconds first, then by label.
pub open spec fn ranks_before(a: (Seq<char>, int), b: (Seq<char>, int)) -> bool {
    a.1 > b.1 || (a.1 == b.1 && lex_lt(a.0, b.0))
}

/// The rows for the window `lo..=hi`: one per label, with its seconds,
/// ordered by descending seconds and, on a tie, by label.
pub open spec fn label_rows(s: Seq<SessionRecord>, ds: Seq<Option<i32>>, lo: int, hi: int, r: Seq<(Seq<char>, int)>) -> bool {
    &&& forall|k: int| 0 <= k < r.len() ==> labels_in(s, ds, lo, hi, s.len() as int).contains(#[trigger] r[k].0)
    &&& forall|k: int| 0 <= k < r.len() ==> #[trigger] r[k].1 == label_secs(s, ds, lo, hi, r[k].0, s.len() as int)
    &&& forall|l: Seq<char>| labels_in(s, ds, lo, hi, s.len() as int).contains(l) ==> exists|k: int| 0 <= k < r.len() && #[trigger] r[k].0 == l
    &&& forall|j: int, k: int| 0 <= j < k < r.len() ==> ranks_before(#[trigger] r[j], #[trigger] r[k])
}

/// The rows `week_breakdown` returns for `today`: this week, Monday through
/// today.
pub open spec fn week_rows(s: Seq<SessionRecord>, ds: Seq<Option<i32>>, today: int, r: Seq<(String, u64)>) -> bool {
    label_rows(s, ds, today - weekday(today), today, r.map_values(|p: (String, u64)| (p.0@, p.1 as int)))
}

proof fn lemma_label_secs_le(s: Seq<SessionRecord>, ds: Seq<Option<i32>>, lo: int, hi: int, l: Seq<char>, n: int)
    requires
        0 <= n <= s.len(),
        ds.len() == s.len(),
    ensures
        0 <= label_secs(s, ds, lo, hi, l, n) <= total_secs(s, n),
    decreases n,
{
    if n > 0 {
        lemma_label_secs_le(s, ds, lo, hi, l, n - 1);
    }
}

fn label_chars(r: &SessionRecord) -> (v: Vec<char>)
    ensures
        v@ == label_of(*r),
{
    let p = chars_of(r.project.as_str());
    let t = crate::text::trim_chars(&p);
    if t.len() == 0 {
        chars_of("No project")
    } else {
        p
    }
}

fn find_label(groups: &Vec<(Vec<char>, u64)>, l: &Vec<char>) -> (r: Option<usize>)
    ensures
        match r {
            Some(k) => k < groups@.len() && groups@[k as int].0@ == l@,
            None => forall|k: int| 0 <= k < groups@.len() ==> groups@[k].0@ != l@,
        },
{
    let mut k: usize = 0;
    while k < groups.len()
        invariant
            k <= groups@.len(),
            forall|j: int| 0 <= j < k ==> groups@[j].0@ != l@,
        decreases groups@.len() - k,
    {
        if crate::text::chars_eq(&groups[k].0, l) {
            return Some(k);
        }
        k = k + 1;
    }
    None
}

proof fn lemma_label_secs_absent(s: Seq<SessionRecord>, ds: Seq<Option<i32>>, lo: int, hi: int, l: Seq<char>, n: int)
    requires
        0 <= n <= s.len(),
        ds.len() == s.len(),
        !labels_in(s, ds, lo, hi, n).contains(l),
    ensures
        label_secs(s, ds, lo, hi, l, n) == 0,
    decreases n,
{
    if n > 0 {
        assert(!labels_in(s, ds, lo, hi, n - 1).contains(l)) by {
            if labels_in(s, ds, lo, hi, n - 1).contains(l) {
                let i = choose|i: int| 0 <= i < n - 1 && in_window(ds, i, lo, hi) && label_of(s[i]) == l;
                assert(labels_in(s, ds, lo, hi, n).contains(l));
            }
        }
        lemma_label_secs_absent(s, ds, lo, hi, l, n - 1);
        if in_window(ds, n - 1, lo, hi) && label_of(s[n - 1]) == l {
            assert(labels_in(s, ds, lo, hi, n).contains(l));
        }
    }
}

proof fn lemma_ranks_total(a: (Seq<char>, int), b: (Seq<char>, int))
    requires
        a.0 != b.0,
    ensures
        ranks_before(a, b) || ranks_before(b, a),
{
    lemma_lex_total(a.0, b.0);
}

proof fn lemma_ranks_trans(a: (Seq<char>, int), b: (Seq<char>, int), c: (Seq<char>, int))
    requires
        ranks_before(a, b),
        ranks_before(b, c),
    ensures
        ranks_before(a, c),
{
    if a.1 == b.1 && b.1 == c.1 {
        lemma_lex_trans(a.0, b.0, c.0);
    }
}

/// The row of a group as plain values.
pub open spec fn row_view(p: (Vec<char>, u64)) -> (Seq<char>, int) {
    (p.0@, p.1 as int)
}

/// Per-label totals of the records dated `lo..=hi`, one row per label in
/// order of first appearance.
fn group_by_label(sessions: &[SessionRecord], dates: &[Option<i32>], lo: i64, hi: i64) -> (groups: Vec<(Vec<char>, u64)>)
    requires
        dates@.len() == sessions@.len(),
        total_secs(sessions@, sessions@.len() as int) <= u64::MAX,
    ensures
        forall|k: int| 0 <= k < groups@.len() ==> labels_in(sessions@, dates@, lo as int, hi as int, sessions@.len() as int).contains(#[trigger] groups@[k].0@),
        forall|k: int| 0 <= k < groups@.len() ==> #[trigger] groups@[k].1 == label_secs(sessions@, dates@, lo as int, hi as int, groups@[k].0@, sessions@.len() as int),
        forall|l: Seq<char>| labels_in(sessions@, dates@, lo as int, hi as int, sessions@.len() as int).contains(l)
            ==> exists|k: int| 0 <= k < groups@.len() && #[trigger] groups@[k].0@ == l,
        forall|j: int, k: int| 0 <= j < k < groups@.len() ==> #[trigger] groups@[j].0@ != #[trigger] groups@[k].0@,
{
    let ghost s = sessions@;
    let ghost ds = dates@;
    let mut groups: Vec<(Vec<char>, u64)> = Vec::new();
    let mut i: usize = 0;
    while i < sessions.len()
        invariant
            s == sessions@,
            ds == dates@,
            ds.len() == s.len(),
            i <= s.len(),
            total_secs(s, s.len() as int) <= u64::MAX,
            forall|k: int| 0 <= k < groups@.len() ==> labels_in(s, ds, lo as int, hi as int, i as int).contains(#[trigger] groups@[k].0@),
            forall|k: int| 0 <= k < groups@.len() ==> #[trigger] groups@[k].1 == label_secs(s, ds, lo as int, hi as int, groups@[k].0@, i as int),
            forall|l: Seq<char>| labels_in(s, ds, lo as int, hi as int, i as int).contains(l)
                ==> exists|k: int| 0 <= k < groups@.len() && #[trigger] groups@[k].0@ == l,
            forall|j: int, k: int| 0 <= j < k < groups@.len() ==> #[trigger] groups@[j].0@ != #[trigger] groups@[k].0@,
        decreases s.len() - i,
    {
        let ghost g0 = groups@;
        let inw = match dates[i] {
            Some(d) => lo <= d as i64 && d as i64 <= hi,
            None => false,
        };
        assert(inw == in_window(ds, i as int, lo as int, hi as int));
        if inw {
            let l = label_chars(&sessions[i]);
            let secs = sessions[i].seconds;
            proof {
                assert(labels_in(s, ds, lo as int, hi as int, i + 1).contains(l@));
                lemma_label_secs_le(s, ds, lo as int, hi as int, l@, (i + 1) as int);
                lemma_total_mono(s, (i + 1) as int, s.len() as int);
            }
            match find_label(&groups, &l) {
                Some(k) => {
                    let (gl, gt) = groups.remove(k);
                    groups.insert(k, (gl, gt + secs));
                    proof {
                        assert(groups@ =~= g0.update(k as int, (g0[k as int].0, (gt + secs) as u64)));
                    }
                },
                None => {
                    proof {
                        lemma_label_secs_absent(s, ds, lo as int, hi as int, l@, i as int);
                    }
                    groups.push((l, secs));
                },
            }
        }
        proof {
            let lo_i = lo as int;
            let hi_i = hi as int;
            assert forall|k: int| 0 <= k < groups@.len() implies labels_in(s, ds, lo_i, hi_i, (i + 1) as int).contains(#[trigger] groups@[k].0@) by {
                if k < g0.len() {
                    assert(groups@[k].0@ == g0[k].0@);
                    let l0 = g0[k].0@;
                    assert(labels_in(s, ds, lo_i, hi_i, i as int).contains(l0));
                    let j = choose|j: int| 0 <= j < i && in_window(ds, j, lo_i, hi_i) && label_of(s[j]) == l0;
                }
            }
            assert forall|l: Seq<char>| #[trigger] labels_in(s, ds, lo_i, hi_i, (i + 1) as int).contains(l)
                implies exists|k: int| 0 <= k < groups@.len() && #[trigger] groups@[k].0@ == l by {
                let j = choose|j: int| 0 <= j < i + 1 && in_window(ds, j, lo_i, hi_i) && label_of(s[j]) == l;
                if j < i {
                    assert(labels_in(s, ds, lo_i, hi_i, i as int).contains(l));
                    let k = choose|k: int| 0 <= k < g0.len() && #[trigger] g0[k].0@ == l;
                    assert(groups@[k].0@ == l);
                } else {
                    if exists|k: int| 0 <= k < g0.len() && #[trigger] g0[k].0@ == l {
                        let k = choose|k: int| 0 <= k < g0.len() && #[trigger] g0[k].0@ == l;
                        assert(groups@[k].0@ == l);
                    } else {
                        assert(groups@[g0.len() as int].0@ == l);
                    }
                }
            }
            assert forall|k: int| 0 <= k < groups@.len() implies #[trigger] groups@[k].1 == label_secs(s, ds, lo_i, hi_i, groups@[k].0@, (i + 1) as int) by {
                if k < g0.len() {
                    assert(groups@[k].0@ == g0[k].0@);
                }
            }
            assert forall|j: int, k: int| 0 <= j < k < groups@.len() implies #[trigger] groups@[j].0@ != #[trigger] groups@[k].0@ by {
                if k < g0.len() {
                    assert(groups@[j].0@ == g0[j].0@ && groups@[k].0@ == g0[k].0@);
                } else {
                    assert(groups@[j].0@ == g0[j].0@);
                }
            }
        }
        i = i + 1;
    }
    groups
}

/// Inserts `x` into the rank-ordered `sorted` at its place.
fn insert_row(sorted: &mut Vec<(Vec<char>, u64)>, x: (Vec<char>, u64)) -> (p: usize)
    requires
        forall|j: int, k: int| 0 <= j < k < old(sorted)@.len() ==> ranks_before(row_view(#[trigger] old(sorted)@[j]), row_view(#[trigger] old(sorted)@[k])),
        forall|k: int| 0 <= k < old(sorted)@.len() ==> #[trigger] old(sorted)@[k].0@ != x.0@,
    ensures
        p <= old(sorted)@.len(),
        final(sorted)@ == old(sorted)@.insert(p as int, x),
        forall|j: int, k: int| 0 <= j < k < final(sorted)@.len() ==> ranks_before(row_view(#[trigger] final(sorted)@[j]), row_view(#[trigger] final(sorted)@[k])),
{
    let ghost s0 = sorted@;
    let mut p: usize = 0;
    while p < sorted.len() && !(x.1 > sorted[p].1 || (x.1 == sorted[p].1 && lex_less(&x.0, &sorted[p].0)))
        invariant
            sorted@ == s0,
            p <= sorted@.len(),
            forall|q: int| 0 <= q < p ==> !ranks_before(row_view(x), row_view(#[trigger] sorted@[q])),
        decreases sorted@.len() - p,
    {
        p = p + 1;
    }
    let ghost xr = row_view(x);
    sorted.insert(p, x);
    proof {
        assert forall|j: int, k: int| 0 <= j < k < sorted@.len() implies ranks_before(row_view(#[trigger] sorted@[j]), row_view(#[trigger] sorted@[k])) by {
            if k < p {
                assert(sorted@[j] == s0[j] && sorted@[k] == s0[k]);
            } else if k == p {
                assert(sorted@[k] == x);
                assert(sorted@[j] == s0[j]);
                assert(!ranks_before(xr, row_view(s0[j])));
                assert(s0[j].0@ != x.0@);
                lemma_ranks_total(xr, row_view(s0[j]));
            } else if j < p {
                assert(sorted@[j] == s0[j] && sorted@[k] == s0[k - 1]);
                assert(ranks_before(row_view(s0[j]), row_view(s0[k - 1])));
            } else if j == p {
                assert(sorted@[j] == x && sorted@[k] == s0[k - 1]);
                if k - 1 > p {
                    assert(ranks_before(row_view(s0[p as int]), row_view(s0[k - 1])));
                    lemma_ranks_trans(xr, row_view(s0[p as int]), row_view(s0[k - 1]));
                }
            } else {
                assert(sorted@[j] == s0[j - 1] && sorted@[k] == s0[k - 1]);
                assert(ranks_before(row_view(s0[j - 1]), row_view(s0[k - 1])));
            }
        }
    }
    p
}

/// The rows of a list of groups as plain values.
pub open spec fn rows(v: Seq<(Vec<char>, u64)>) -> Seq<(Seq<char>, int)> {
    v.map_values(|p: (Vec<char>, u64)| row_view(p))
}

proof fn lemma_rows_insert(v: Seq<(Vec<char>, u64)>, p: int, x: (Vec<char>, u64))
    requires
        0 <= p <= v.len(),
    ensures
        rows(v.insert(p, x)).to_set() == rows(v).to_set().insert(row_view(x)),
{
    let a = rows(v.insert(p, x));
    let b = rows(v);
    assert forall|r: (Seq<char>, int)| a.contains(r) <==> (b.contains(r) || r == row_view(x)) by {
        if a.contains(r) {
            let k = choose|k: int| 0 <= k < a.len() && a[k] == r;
            if k < p {
                assert(b[k] == r);
            } else if k > p {
                assert(b[k - 1] == r);
            }
        }
        if b.contains(r) {
            let k = choose|k: int| 0 <= k < b.len() && b[k] == r;
            if k < p {
                assert(a[k] == r);
            } else {
                assert(a[k + 1] == r);
            }
        }
        if r == row_view(x) {
            assert(a[p] == r);
        }
    }
    assert(a.to_set() =~= b.to_set().insert(row_view(x)));
}

proof fn lemma_rows_skip(g: Seq<(Vec<char>, u64)>, m: int)
    requires
        0 <= m < g.len(),
    ensures
        rows(g.skip(m)).to_set() == rows(g.skip(m + 1)).to_set().insert(row_view(g[m])),
{
    assert(g.skip(m) =~= g.skip(m + 1).insert(0, g[m]));
    lemma_rows_insert(g.skip(m + 1), 0, g[m]);
}

/// `groups` rearranged into rank order (see `ranks_before`).
fn sort_rows(groups: Vec<(Vec<char>, u64)>) -> (sorted: Vec<(Vec<char>, u64)>)
    requires
        forall|j: int, k: int| 0 <= j < k < groups@.len() ==> #[trigger] groups@[j].0@ != #[trigger] groups@[k].0@,
    ensures
        rows(sorted@).to_set() == rows(groups@).to_set(),
        forall|j: int, k: int| 0 <= j < k < sorted@.len() ==> ranks_before(row_view(#[trigger] sorted@[j]), row_view(#[trigger] sorted@[k])),
{
    let ghost g = groups@;
    let mut rest = groups;
    let mut sorted: Vec<(Vec<char>, u64)> = Vec::new();
    proof {
        assert(rows(sorted@).to_set() =~= rows(g.skip(g.len() as int)).to_set());
    }
    // Take elements from the back of `rest` so each removal is cheap.
    while rest.len() > 0
        invariant
            rest@ == g.take(rest@.len() as int),
            rest@.len() <= g.len(),
            forall|j: int, k: int| 0 <= j < k < g.len() ==> #[trigger] g[j].0@ != #[trigger] g[k].0@,
            rows(sorted@).to_set() == rows(g.skip(rest@.len() as int)).to_set(),
            forall|j: int, k: int| 0 <= j < k < sorted@.len() ==> ranks_before(row_view(#[trigger] sorted@[j]), row_view(#[trigger] sorted@[k])),
        decreases rest@.len(),
    {
        let ghost m = rest@.len() - 1;
        let x = rest.pop().unwrap();
        proof {
            assert(x == g[m]);
            assert(rest@ =~= g.take(m));
        }
        let ghost s0 = sorted@;
        proof {
            assert forall|k: int| 0 <= k < s0.len() implies #[trigger] s0[k].0@ != x.0@ by {
                assert(rows(s0)[k] == row_view(s0[k]));
                assert(rows(s0).to_set().contains(row_view(s0[k])));
                let rg = rows(g.skip(m + 1));
                assert(rg.contains(row_view(s0[k])));
                let j = choose|j: int| 0 <= j < rg.len() && rg[j] == row_view(s0[k]);
                assert(g.skip(m + 1)[j] == g[m + 1 + j]);
                assert(g[m].0@ != g[m + 1 + j].0@);
            }
        }
        let p = insert_row(&mut sorted, x);
        proof {
            lemma_rows_insert(s0, p as int, x);
            lemma_rows_skip(g, m);
        }
    }
    assert(g.skip(0) =~= g);
    sorted
}

proof fn lemma_label_rows(s: Seq<SessionRecord>, ds: Seq<Option<i32>>, lo: int, hi: int, g: Seq<(Vec<char>, u64)>, r: Seq<(Seq<char>, int)>)
    requires
        forall|k: int| 0 <= k < g.len() ==> labels_in(s, ds, lo, hi, s.len() as int).contains(#[trigger] g[k].0@),
        forall|k: int| 0 <= k < g.len() ==> #[trigger] g[k].1 == label_secs(s, ds, lo, hi, g[k].0@, s.len() as int),
        forall|l: Seq<char>| labels_in(s, ds, lo, hi, s.len() as int).contains(l) ==> exists|k: int| 0 <= k < g.len() && #[trigger] g[k].0@ == l,
        r.to_set() == rows(g).to_set(),
        forall|j: int, k: int| 0 <= j < k < r.len() ==> ranks_before(#[trigger] r[j], #[trigger] r[k]),
    ensures
        label_rows(s, ds, lo, hi, r),
{
    let labels = labels_in(s, ds, lo, hi, s.len() as int);
    let rg = rows(g);
    assert forall|k: int| 0 <= k < r.len() implies labels.contains(#[trigger] r[k].0) && r[k].1 == label_secs(s, ds, lo, hi, r[k].0, s.len() as int) by {
        assert(r.to_set().contains(r[k]));
        assert(rg.contains(r[k]));
        let j = choose|j: int| 0 <= j < rg.len() && rg[j] == r[k];
        assert(rg[j] == row_view(g[j]));
    }
    assert forall|l: Seq<char>| labels.contains(l) implies exists|k: int| 0 <= k < r.len() && #[trigger] r[k].0 == l by {
        let j = choose|j: int| 0 <= j < g.len() && #[trigger] g[j].0@ == l;
        assert(rg[j] == row_view(g[j]));
        assert(rg.to_set().contains(rg[j]));
        assert(r.contains(rg[j]));
        let k = choose|k: int| 0 <= k < r.len() && r[k] == rg[j];
        assert(r[k].0 == l);
    }
}

/// Per-project focused seconds for the local week containing `today`
/// (Monday through `today`), most first; a blank project is labeled
/// "No project".
pub fn week_breakdown_on(sessions: &[SessionRecord], dates: &[Option<i32>], today: i32) -> (r: Vec<(String, u64)>)
    requires
        dates@.len() == sessions@.len(),
        total_secs(sessions@, sessions@.len() as int) <= u64::MAX,
    ensures
        week_rows(sessions@, dates@, today as int, r@),
{
    let week_start: i64 = today as i64 - weekday_from_monday(today) as i64;
    let groups = group_by_label(sessions, dates, week_start, today as i64);
    let ghost g = groups@;
    let sorted = sort_rows(groups);
    let mut out: Vec<(String, u64)> = Vec::new();
    let mut k: usize = 0;
    while k < sorted.len()
        invariant
            k <= sorted@.len(),
            out@.len() == k,
            forall|j: int| 0 <= j < k ==> #[trigger] out@[j].0@ == sorted@[j].0@ && out@[j].1 == sorted@[j].1,
        decreases sorted@.len() - k,
    {
        let label = string_of(crate::text::slice_chars(&sorted[k].0, 0, sorted[k].0.len()));
        assert(sorted@[k as int].0@.subrange(0, sorted@[k as int].0@.len() as int) =~= sorted@[k as int].0@);
        out.push((label, sorted[k].1));
        k = k + 1;
    }
    proof {
        let rv = out@.map_values(|p: (String, u64)| (p.0@, p.1 as int));
        assert(rv =~= rows(sorted@));
        lemma_label_rows(sessions@, dates@, week_start as int, today as int, g, rv);
    }
    out
}

/// Per-project focused seconds for the current local week (Monday-Sunday),
/// sorted by descending time. Empty project is labeled "No project".
pub fn week_breakdown(sessions: &[SessionRecord]) -> (r: Vec<(String, u64)>)
    requires
        total_secs(sessions@, sessions@.len() as int) <= u64::MAX,
    ensures
        exists|ds: Seq<Option<i32>>, today: i32| dates_parsed(sessions@, ds) && #[trigger] week_rows(sessions@, ds, today as int, r@),
{
    let today = local_today();
    let dates = session_dates(sessions);
    week_breakdown_on(sessions, dates.as_slice(), today)
}
proof fn lemma_count_partition(s: Seq<SessionRecord>, n: int)
    requires
        0 <= n <= s.len(),
    ensures
        count_with(s, Some(true), n) + count_with(s, Some(false), n) + count_with(s, None, n) == n,
    decreases n,
{
    if n > 0 {
        lemma_count_partition(s, n - 1);
        match s[n - 1].completed {
            Some(b) => {
                if b {
                    assert(s[n - 1].completed == Some(true));
                } else {
                    assert(s[n - 1].completed == Some(false));
                }
            },
            None => {},
        }
    }
}

/// Every session lands in exactly one bucket: completed, skipped or
/// stopped, and unknown add up to all sessions.
pub proof fn lemma_completion_partition(s: Seq<SessionRecord>)
    ensures
        count_with(s, Some(true), s.len() as int) + count_with(s, Some(false), s.len() as int) + count_with(
            s,
            None,
            s.len() as int,
        ) == s.len(),
{
    lemma_count_partition(s, s.len() as int);
}

/// The seven weekday totals of `lo..=hi` over the first `n` records.
pub open spec fn weekday_sum(s: Seq<SessionRecord>, ds: Seq<Option<i32>>, lo: int, hi: int, n: int) -> int {
    secs_on_weekday(s, ds, lo, hi, 0, n) + secs_on_weekday(s, ds, lo, hi, 1, n) + secs_on_weekday(s, ds, lo, hi, 2, n)
        + secs_on_weekday(s, ds, lo, hi, 3, n) + secs_on_weekday(s, ds, lo, hi, 4, n) + secs_on_weekday(
        s,
        ds,
        lo,
        hi,
        5,
        n,
    ) + secs_on_weekday(s, ds, lo, hi, 6, n)
}

proof fn lemma_weekday_sum_upto(s: Seq<SessionRecord>, ds: Seq<Option<i32>>, lo: int, hi: int, n: int)
    requires
        0 <= n,
    ensures
        weekday_sum(s, ds, lo, hi, n) == secs_between(s, ds, lo, hi, n),
    decreases n,
{
    if n > 0 && n <= s.len() && n <= ds.len() {
        lemma_weekday_sum_upto(s, ds, lo, hi, n - 1);
        match ds[n - 1] {
            Some(d) => {
                let w = weekday(d as int);
                assert(0 <= w < 7);
            },
            None => {},
        }
    }
}

/// The weekday profile shares out the window's focus: its seven totals add
/// up to everything logged in the window.
pub proof fn lemma_weekday_profile_sums(s: Seq<SessionRecord>, ds: Seq<Option<i32>>, lo: int, hi: int)
    ensures
        weekday_sum(s, ds, lo, hi, s.len() as int) == secs_between(s, ds, lo, hi, s.len() as int),
{
    lemma_weekday_sum_upto(s, ds, lo, hi, s.len() as int);
}

/// With nothing focused today the line never reports a goal as met: it
/// invites a first session, or names the streak at stake.
pub proof fn lemma_empty_day_not_congratulated(goal_minutes: nat, streak: nat)
    ensures
        encouragement_line(0, goal_minutes, streak) == if streak == 0 {
            "No sessions yet. One 25-minute block is enough to start."@
        } else {
            dec(streak) + "-day streak on the line. One session keeps it alive."@
        },
{
}

/// The week day `d` falls in, counting the week that began on day 1 (a
/// Monday) as week 0: weeks run Monday to Sunday.
pub open spec fn week_index(d: int) -> int {
    (d - 1) / 7
}

/// Day `d` lies in the Monday-to-Sunday week of `today`, no later than today.
pub open spec fn this_week_so_far(d: int, today: int) -> bool {
    week_index(d) == week_index(today) && weekday(d) <= weekday(today)
}

/// Day `d` lies in the week before `today`'s, no later in that week than
/// today's weekday is in this one.
pub open spec fn last_week_so_far(d: int, today: int) -> bool {
    week_index(d) == week_index(today) - 1 && weekday(d) <= weekday(today)
}

/// Seconds of the first `n` records whose date satisfies `keep`.
pub open spec fn secs_dated(s: Seq<SessionRecord>, ds: Seq<Option<i32>>, keep: spec_fn(int) -> bool, n: int) -> int
    decreases n,
{
    if n <= 0 || n > s.len() || n > ds.len() {
        0
    } else {
        secs_dated(s, ds, keep, n - 1) + match ds[n - 1] {
            Some(d) => if keep(d as int) {
                s[n - 1].seconds as int
            } else {
                0
            },
            None => 0,
        }
    }
}

/// Seconds of the first `n` records labelled `l` whose date satisfies `keep`.
pub open spec fn label_secs_dated(
    s: Seq<SessionRecord>,
    ds: Seq<Option<i32>>,
    keep: spec_fn(int) -> bool,
    l: Seq<char>,
    n: int,
) -> int
    decreases n,
{
    if n <= 0 || n > s.len() || n > ds.len() {
        0
    } else {
        label_secs_dated(s, ds, keep, l, n - 1) + match ds[n - 1] {
            Some(d) => if keep(d as int) && label_of(s[n - 1]) == l {
                s[n - 1].seconds as int
            } else {
                0
            },
            None => 0,
        }
    }
}

proof fn lemma_week_windows(d: int, today: int)
    ensures
        (today - weekday(today) <= d && d <= today) <==> this_week_so_far(d, today),
        (today - weekday(today) - 7 <= d && d <= today - 7) <==> last_week_so_far(d, today),
{
    vstd::arithmetic::div_mod::lemma_fundamental_div_mod(d - 1, 7);
    vstd::arithmetic::div_mod::lemma_fundamental_div_mod(today - 1, 7);
    vstd::arithmetic::div_mod::lemma_mod_bound(d - 1, 7);
    vstd::arithmetic::div_mod::lemma_mod_bound(today - 1, 7);
}

proof fn lemma_secs_dated_window(s: Seq<SessionRecord>, ds: Seq<Option<i32>>, lo: int, hi: int, keep: spec_fn(int) -> bool, n: int)
    requires
        forall|d: int| #[trigger] keep(d) <==> (lo <= d && d <= hi),
    ensures
        secs_between(s, ds, lo, hi, n) == secs_dated(s, ds, keep, n),
    decreases n,
{
    if n > 0 {
        lemma_secs_dated_window(s, ds, lo, hi, keep, n - 1);
    }
}

/// `week_over_week` compares this week so far with the same slice of last
/// week, day for day: the first figure is the focus logged from this week's
/// Monday through today, the second that logged from last week's Monday
/// through last week's day of today's weekday — never the rest of last week.
pub proof fn lemma_week_over_week_compares_like_days(s: Seq<SessionRecord>, ds: Seq<Option<i32>>, today: int)
    ensures
        week_over_week_of(s, ds, today) == (
            secs_dated(s, ds, |d: int| this_week_so_far(d, today), s.len() as int),
            secs_dated(s, ds, |d: int| last_week_so_far(d, today), s.len() as int),
        ),
{
    let w = weekday(today);
    let this_keep = |d: int| this_week_so_far(d, today);
    let last_keep = |d: int| last_week_so_far(d, today);
    assert forall|d: int| #[trigger] this_keep(d) <==> (today - w <= d && d <= today) by {
        lemma_week_windows(d, today);
    }
    assert forall|d: int| #[trigger] last_keep(d) <==> (today - w - 7 <= d && d <= today - w - 7 + w) by {
        lemma_week_windows(d, today);
    }
    lemma_secs_dated_window(s, ds, today - w, today, this_keep, s.len() as int);
    lemma_secs_dated_window(s, ds, today - w - 7, today - w - 7 + w, last_keep, s.len() as int);
}

proof fn lemma_label_secs_dated_window(
    s: Seq<SessionRecord>,
    ds: Seq<Option<i32>>,
    lo: int,
    hi: int,
    keep: spec_fn(int) -> bool,
    l: Seq<char>,
    n: int,
)
    requires
        forall|d: int| #[trigger] keep(d) <==> (lo <= d && d <= hi),
    ensures
        label_secs(s, ds, lo, hi, l, n) == label_secs_dated(s, ds, keep, l, n),
    decreases n,
{
    if n > 0 {
        lemma_label_secs_dated_window(s, ds, lo, hi, keep, l, n - 1);
    }
}

/// The labels of the records dated in today's week, no later than today.
pub open spec fn week_labels(s: Seq<SessionRecord>, ds: Seq<Option<i32>>, today: int) -> Set<Seq<char>> {
    Set::new(
        |l: Seq<char>|
            exists|i: int|
                0 <= i < s.len() && ds[i] is Some && this_week_so_far(ds[i]->0 as int, today) && label_of(s[i]) == l,
    )
}

proof fn lemma_week_labels(s: Seq<SessionRecord>, ds: Seq<Option<i32>>, today: int)
    requires
        ds.len() == s.len(),
    ensures
        week_labels(s, ds, today) == labels_in(s, ds, today - weekday(today), today, s.len() as int),
{
    let lo = today - weekday(today);
    let n = s.len() as int;
    assert forall|l: Seq<char>| week_labels(s, ds, today).contains(l) implies labels_in(s, ds, lo, today, n).contains(l) by {
        let i = choose|i: int|
            0 <= i < s.len() && ds[i] is Some && this_week_so_far(ds[i]->0 as int, today) && label_of(s[i]) == l;
        lemma_week_windows(ds[i]->0 as int, today);
        assert(in_window(ds, i, lo, today));
    }
    assert forall|l: Seq<char>| labels_in(s, ds, lo, today, n).contains(l) implies week_labels(s, ds, today).contains(l) by {
        let i = choose|i: int| 0 <= i < n && in_window(ds, i, lo, today) && label_of(s[i]) == l;
        lemma_week_windows(ds[i]->0 as int, today);
    }
    assert(week_labels(s, ds, today) =~= labels_in(s, ds, lo, today, n));
}

proof fn lemma_week_row_seconds(s: Seq<SessionRecord>, ds: Seq<Option<i32>>, today: int, r: Seq<(String, u64)>, k: int)
    requires
        ds.len() == s.len(),
        week_rows(s, ds, today, r),
        0 <= k < r.len(),
    ensures
        r[k].1 as int == label_secs_dated(s, ds, |d: int| this_week_so_far(d, today), r[k].0@, s.len() as int),
{
    let lo = today - weekday(today);
    let n = s.len() as int;
    let keep = |d: int| this_week_so_far(d, today);
    let rv = r.map_values(|p: (String, u64)| (p.0@, p.1 as int));
    assert forall|d: int| #[trigger] keep(d) <==> (lo <= d && d <= today) by {
        lemma_week_windows(d, today);
    }
    assert(rv[k] == (r[k].0@, r[k].1 as int));
    assert(rv[k].1 == label_secs(s, ds, lo, today, rv[k].0, n));
    lemma_label_secs_dated_window(s, ds, lo, today, keep, r[k].0@, n);
}

/// `week_breakdown` covers the current Monday-to-Sunday week only, up to
/// today: each row's seconds are the focus logged under its label on a day
/// of today's week no later than today, and the rows' labels are exactly
/// the labels of such records. A record dated before this week's Monday (or
/// after today) counts towards no row.
pub proof fn lemma_week_rows_cover_this_week(s: Seq<SessionRecord>, ds: Seq<Option<i32>>, today: int, r: Seq<(String, u64)>)
    requires
        ds.len() == s.len(),
        week_rows(s, ds, today, r),
    ensures
        forall|k: int|
            0 <= k < r.len() ==> #[trigger] r[k].1 as int == label_secs_dated(
                s,
                ds,
                |d: int| this_week_so_far(d, today),
                r[k].0@,
                s.len() as int,
            ),
        forall|k: int| 0 <= k < r.len() ==> week_labels(s, ds, today).contains(#[trigger] r[k].0@),
        forall|l: Seq<char>| week_labels(s, ds, today).contains(l) ==> exists|k: int| 0 <= k < r.len() && #[trigger] r[k].0@ == l,
{
    let lo = today - weekday(today);
    let n = s.len() as int;
    let rv = r.map_values(|p: (String, u64)| (p.0@, p.1 as int));
    lemma_week_labels(s, ds, today);
    assert forall|k: int| 0 <= k < r.len() implies #[trigger] r[k].1 as int == label_secs_dated(
        s,
        ds,
        |d: int| this_week_so_far(d, today),
        r[k].0@,
        s.len() as int,
    ) by {
        lemma_week_row_seconds(s, ds, today, r, k);
    }
    assert forall|k: int| 0 <= k < r.len() implies week_labels(s, ds, today).contains(#[trigger] r[k].0@) by {
        assert(rv[k] == (r[k].0@, r[k].1 as int));
        assert(labels_in(s, ds, lo, today, n).contains(rv[k].0));
    }
    assert forall|l: Seq<char>| week_labels(s, ds, today).contains(l) implies exists|k: int|
        0 <= k < r.len() && #[trigger] r[k].0@ == l by {
        let k = choose|k: int| 0 <= k < rv.len() && #[trigger] rv[k].0 == l;
        assert(rv[k] == (r[k].0@, r[k].1 as int));
    }
}

} // verus!

