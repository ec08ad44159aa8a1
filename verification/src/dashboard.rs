//! What the statistics page says and how its charts are laid out: captions,
//! scales and the calendar grid, computed from the figures in `stats` and
//! `laptop_usage`.
use vstd::prelude::*;
use crate::text::{chars_of, string_of, push_str, push_dec, push_pad2, dec, pad2};
use crate::stats::{hhmm, human_duration, push_duration, SessionRecord, CompletionSummary};
use crate::dates::{weekday, weekday_from_monday, local_today, ymd_of, ymd_of_day};

verus! {

/// A short duration: whole seconds below one minute (`"32s"`), else `hh:mm`.
pub open spec fn short_duration(seconds: nat) -> Seq<char> {
    if seconds < 60 {
        dec(seconds) + "s"@
    } else {
        hhmm(seconds)
    }
}

/// Like `format_hhmm`, but shows whole seconds below one minute ("32s")
/// instead of a misleading "00:00".
pub fn format_short(seconds: u64) -> (r: String)
    ensures
        r@ == short_duration(seconds as nat),
{
    let mut out: Vec<char> = Vec::new();
    if seconds < 60 {
        push_dec(&mut out, seconds);
        push_str(&mut out, "s");
    } else {
        push_pad2(&mut out, seconds / 3600);
        push_str(&mut out, ":");
        push_pad2(&mut out, (seconds % 3600) / 60);
    }
    assert(out@ =~= short_duration(seconds as nat));
    string_of(out)
}

/// What the goal ring fills toward and the caption under it: the daily goal
/// when one is set, else the personal best day when it is above zero, else
/// one hour labelled "today".
pub open spec fn ring_scale(goal_secs: nat, best: Option<(i32, u64)>) -> (nat, Seq<char>) {
    if goal_secs > 0 {
        (goal_secs, "of "@ + human_duration(goal_secs) + " goal"@)
    } else {
        match best {
            Some((_, s)) if s > 0 => (s as nat, "of best "@ + human_duration(s as nat)),
            _ => (3600, "today"@),
        }
    }
}

/// The goal ring's target in seconds and its caption.
pub fn ring_target(goal_secs: u64, best: Option<(i32, u64)>) -> (r: (u64, String))
    ensures
        (r.0 as nat, r.1@) == ring_scale(goal_secs as nat, best),
{
    let mut out: Vec<char> = Vec::new();
    if goal_secs > 0 {
        push_str(&mut out, "of ");
        push_duration(&mut out, goal_secs);
        push_str(&mut out, " goal");
        assert(out@ =~= ring_scale(goal_secs as nat, best).1);
        return (goal_secs, string_of(out));
    }
    match best {
        Some((_, s)) => {
            if s > 0 {
                push_str(&mut out, "of best ");
                push_duration(&mut out, s);
                assert(out@ =~= ring_scale(goal_secs as nat, best).1);
                return (s, string_of(out));
            }
        },
        None => {},
    }
    (3600, String::from_str("today"))
}

/// The line comparing this week's focus with last week's at the same point.
pub open spec fn trend_text(this_week: nat, last_week: nat) -> Seq<char> {
    if this_week == 0 && last_week == 0 {
        "No focus logged this week yet."@
    } else if last_week == 0 {
        human_duration(this_week) + " this week — your first week logging focus."@
    } else if this_week >= last_week {
        human_duration(this_week) + " this week, up from "@ + human_duration(last_week)
            + " at this point last week."@
    } else {
        human_duration(this_week) + " this week, "@ + human_duration((last_week - this_week) as nat)
            + " behind last week's pace."@
    }
}

/// This week against last week's pace, in words.
pub fn trend_line(this_week: u64, last_week: u64) -> (r: String)
    ensures
        r@ == trend_text(this_week as nat, last_week as nat),
{
    let mut out: Vec<char> = Vec::new();
    if this_week == 0 && last_week == 0 {
        push_str(&mut out, "No focus logged this week yet.");
    } else if last_week == 0 {
        push_duration(&mut out, this_week);
        push_str(&mut out, " this week — your first week logging focus.");
    } else if this_week >= last_week {
        push_duration(&mut out, this_week);
        push_str(&mut out, " this week, up from ");
        push_duration(&mut out, last_week);
        push_str(&mut out, " at this point last week.");
    } else {
        push_duration(&mut out, this_week);
        push_str(&mut out, " this week, ");
        push_duration(&mut out, last_week - this_week);
        push_str(&mut out, " behind last week's pace.");
    }
    assert(out@ =~= trend_text(this_week as nat, last_week as nat));
    string_of(out)
}

/// The daily-goal control's text: `"Off"` for no goal, else `"N min"`.
pub open spec fn goal_text(minutes: nat) -> Seq<char> {
    if minutes == 0 {
        "Off"@
    } else {
        dec(minutes) + " min"@
    }
}

/// The daily-goal control's text.
pub fn goal_label(daily_goal_minutes: u32) -> (r: String)
    ensures
        r@ == goal_text(daily_goal_minutes as nat),
{
    if daily_goal_minutes == 0 {
        return String::from_str("Off");
    }
    let mut out: Vec<char> = Vec::new();
    push_dec(&mut out, daily_goal_minutes as u64);
    push_str(&mut out, " min");
    assert(out@ =~= goal_text(daily_goal_minutes as nat));
    string_of(out)
}

/// The full-width value of the this-week bars and the section's subtitle:
/// several projects are compared with each other (no fixed ceiling); a
/// single one is measured against the goal so far this week, `goal_secs`
/// for each of the `days_elapsed` days since Monday (at least 1).
pub open spec fn week_scale_of(multi_project: bool, goal_secs: nat, days_elapsed: nat) -> (Option<nat>, Seq<char>) {
    let target = goal_secs * days_elapsed;
    (
        if multi_project {
            None
        } else if target > 0 {
            Some(target)
        } else {
            Some(1)
        },
        if multi_project {
            "Time per project, Monday to today."@
        } else if target > 0 {
            "Time per project, Monday to today — the track is your goal so far this week ("@
                + human_duration(target) + ")."@
        } else {
            "Time per project, Monday to today. Set a daily goal to see this as progress."@
        },
    )
}

/// Plain values of a bar ceiling.
pub open spec fn ceiling_view(r: Option<u64>) -> Option<nat> {
    match r {
        Some(x) => Some(x as nat),
        None => None,
    }
}

/// The this-week bar ceiling and subtitle for `bar_count` projects.
pub fn week_scale(bar_count: usize, goal_secs: u64, days_elapsed: u64) -> (r: (Option<u64>, String))
    requires
        goal_secs * days_elapsed <= u64::MAX,
    ensures
        (ceiling_view(r.0), r.1@) == week_scale_of(bar_count > 1, goal_secs as nat, days_elapsed as nat),
{
    let multi_project = bar_count > 1;
    let target: u64 = goal_secs * days_elapsed;
    let reference: Option<u64> = if multi_project {
        None
    } else if target > 0 {
        Some(target)
    } else {
        Some(1)
    };
    let mut out: Vec<char> = Vec::new();
    if multi_project {
        push_str(&mut out, "Time per project, Monday to today.");
    } else if target > 0 {
        push_str(&mut out, "Time per project, Monday to today — the track is your goal so far this week (");
        push_duration(&mut out, target);
        push_str(&mut out, ").");
    } else {
        push_str(&mut out, "Time per project, Monday to today. Set a daily goal to see this as progress.");
    }
    assert(out@ =~= week_scale_of(multi_project, goal_secs as nat, days_elapsed as nat).1);
    (reference, string_of(out))
}

/// The this-week bar ceiling and subtitle as of today: the days elapsed run
/// from Monday through today.
pub fn this_week_scale(bar_count: usize, goal_secs: u64) -> (r: (Option<u64>, String))
    requires
        goal_secs * 7 <= u64::MAX,
    ensures
        exists|today: int|
            (ceiling_view(r.0), r.1@) == week_scale_of(bar_count > 1, goal_secs as nat, (weekday(today) + 1) as nat),
{
    let today = local_today();
    let days_elapsed: u64 = weekday_from_monday(today) as u64 + 1;
    proof {
        assert(goal_secs * days_elapsed <= goal_secs * 7) by (nonlinear_arith)
            requires
                days_elapsed <= 7,
        ;
    }
    week_scale(bar_count, goal_secs, days_elapsed)
}

/// The caption under the consistency heatmap, with `percent` the share of
/// finished sessions as shown.
pub open spec fn completion_text(c: CompletionSummary, percent: nat) -> Seq<char> {
    let total = c.completed + c.skipped_or_stopped;
    if total == 0 {
        "No finished sessions recorded yet."@
    } else {
        dec(c.completed as nat) + " of "@ + dec(total as nat) + " sessions run to completion ("@ + dec(percent)
            + "%)."@
    }
}

/// How many sessions with a known outcome ran to completion, in words.
/// `percent` is that share as a whole percentage; it is worked out in
/// floating point by the caller and only shown here.
pub fn completion_caption(c: &CompletionSummary, percent: u32) -> (r: String)
    requires
        c.completed + c.skipped_or_stopped <= u32::MAX,
    ensures
        r@ == completion_text(*c, percent as nat),
{
    let finished: u64 = c.completed as u64;
    let total: u64 = c.completed as u64 + c.skipped_or_stopped as u64;
    if total == 0 {
        return String::from_str("No finished sessions recorded yet.");
    }
    let mut out: Vec<char> = Vec::new();
    push_dec(&mut out, finished);
    push_str(&mut out, " of ");
    push_dec(&mut out, total);
    push_str(&mut out, " sessions run to completion (");
    push_dec(&mut out, percent as u64);
    push_str(&mut out, "%).");
    assert(out@ =~= completion_text(*c, percent as nat));
    string_of(out)
}

/// The uptime chart's window: the days of boot history up to today
/// (`today - start + 1`, at least 1), capped at `window` days; no chart with
/// fewer than two days or no history. The subtitle says whether the history
/// was shorter than the window.
pub open spec fn uptime_window_of(start: Option<int>, today: int, window: nat) -> Option<(nat, Seq<char>)> {
    match start {
        None => None,
        Some(s) => {
            let covered = (if today - s > 0 { today - s } else { 0 }) + 1;
            let days = if covered < window { covered } else { window as int };
            if days < 2 {
                None
            } else if covered < window {
                Some((days as nat, "Hours the machine was powered on. Boot history only goes back "@ + dec(days as nat)
                    + " days."@))
            } else {
                Some((days as nat, "Hours the machine was powered on, last "@ + dec(days as nat)
                    + " days. Includes time spent suspended."@))
            }
        },
    }
}

/// How many days the uptime chart shows, and its subtitle, for a boot
/// history starting on `history_start` (a 14-day window).
pub fn uptime_window(history_start: Option<i64>, today: i64) -> (r: Option<(u32, String)>)
    requires
        match history_start {
            Some(s) => today - s < u32::MAX,
            None => true,
        },
    ensures
        match r {
            Some((d, s)) => uptime_window_of(
                match history_start {
                    Some(x) => Some(x as int),
                    None => None,
                },
                today as int,
                14,
            ) == Some((d as nat, s@)),
            None => uptime_window_of(
                match history_start {
                    Some(x) => Some(x as int),
                    None => None,
                },
                today as int,
                14,
            ) is None,
        },
{
    let window: u32 = 14;
    let start = match history_start {
        Some(s) => s,
        None => return None,
    };
    let gap: u32 = if today > start { (today - start) as u32 } else { 0 };
    let covered: u32 = gap + 1;
    let days: u32 = if covered < window { covered } else { window };
    if days < 2 {
        return None;
    }
    let mut out: Vec<char> = Vec::new();
    if covered < window {
        push_str(&mut out, "Hours the machine was powered on. Boot history only goes back ");
        push_dec(&mut out, days as u64);
        push_str(&mut out, " days.");
    } else {
        push_str(&mut out, "Hours the machine was powered on, last ");
        push_dec(&mut out, days as u64);
        push_str(&mut out, " days. Includes time spent suspended.");
    }
    proof {
        let sp: Option<int> = Some(start as int);
        assert(uptime_window_of(sp, today as int, 14) =~= Some((days as nat, out@)));
    }
    Some((days, string_of(out)))
}

/// The value recorded for day `d` among the first `n` entries: the last
/// entry for `d` wins; 0 when there is none.
pub open spec fn value_on(daily: Seq<(i64, u64)>, d: int, n: int) -> u64
    decreases n,
{
    if n <= 0 || n > daily.len() {
        0
    } else if daily[n - 1].0 == d {
        daily[n - 1].1
    } else {
        value_on(daily, d, n - 1)
    }
}

/// The `days` calendar days ending `today`, ascending, each with its value
/// in `daily` or 0: entry `k` is the day `today - (days - 1 - k)`.
pub open spec fn zero_filled(daily: Seq<(i64, u64)>, today: int, days: int, r: Seq<(i64, u64)>) -> bool {
    &&& r.len() == days
    &&& forall|k: int|
        0 <= k < days ==> {
            let d = today - (days - 1 - k);
            &&& #[trigger] r[k].0 == d
            &&& r[k].1 == value_on(daily, d, daily.len() as int)
        }
}

fn value_of(daily: &[(i64, u64)], d: i64) -> (r: u64)
    ensures
        r == value_on(daily@, d as int, daily@.len() as int),
{
    let mut i: usize = daily.len();
    while i > 0
        invariant
            i <= daily@.len(),
            value_on(daily@, d as int, daily@.len() as int) == value_on(daily@, d as int, i as int),
        decreases i,
    {
        if daily[i - 1].0 == d {
            return daily[i - 1].1;
        }
        i = i - 1;
    }
    0
}

/// Zero-filled, ascending-date minute totals for the `days` calendar days
/// ending `today` — the same shape as `stats::daily_breakdown`, so the
/// uptime chart reads like the focus charts.
pub fn zero_fill_minutes_on(daily: &[(i64, u64)], today: i64, days: u32) -> (r: Vec<(i64, u64)>)
    requires
        -100_000_000 <= today <= 100_000_000,
    ensures
        zero_filled(daily@, today as int, days as int, r@),
{
    let mut out: Vec<(i64, u64)> = Vec::new();
    let mut k: u32 = 0;
    while k < days
        invariant
            -100_000_000 <= today <= 100_000_000,
            k <= days,
            out@.len() == k,
            forall|j: int|
                0 <= j < k ==> {
                    let d = today - (days - 1 - j);
                    &&& #[trigger] out@[j].0 == d
                    &&& out@[j].1 == value_on(daily@, d, daily@.len() as int)
                },
        decreases days - k,
    {
        let d: i64 = today - (days - 1 - k) as i64;
        let v = value_of(daily, d);
        out.push((d, v));
        k = k + 1;
    }
    out
}

/// Zero-filled minute totals for the `days` days ending today (local time).
pub fn zero_fill_minutes(daily: &[(i64, u64)], days: u32) -> (r: Vec<(i64, u64)>)
    ensures
        exists|today: int| zero_filled(daily@, today, days as int, r@),
{
    let today = local_today();
    zero_fill_minutes_on(daily, today as i64, days)
}

/// How many day cells the calendar draws: `weeks` columns of seven.
pub open spec fn cells_for(weeks: nat) -> nat {
    weeks * 7
}

/// How many day cells the calendar draws for `weeks` columns.
pub fn rendered_cells(weeks: u32) -> (r: usize)
    requires
        weeks * 7 <= usize::MAX,
    ensures
        r == cells_for(weeks as nat),
{
    weeks as usize * 7
}

/// The blank cells before the first day, so that row 0 is always Monday:
/// the weekday of the first day, or 0 with no days.
pub open spec fn offset_for(days: Seq<(i32, u64)>) -> nat {
    if days.len() == 0 {
        0
    } else {
        weekday(days[0].0 as int) as nat
    }
}

/// How many blank cells precede the first day.
pub fn row_offset(days: &[(i32, u64)]) -> (r: usize)
    ensures
        r == offset_for(days@),
        r < 7,
{
    if days.len() == 0 {
        0
    } else {
        weekday_from_monday(days[0].0) as usize
    }
}

/// The (column, row) of day `index` in the grid: slot `index + offset`,
/// seven slots per column.
pub open spec fn slot_of(index: nat, offset: nat) -> (nat, nat) {
    ((index + offset) / 7, (index + offset) % 7)
}

/// The (column, row) at which day `index` is drawn.
pub fn cell_position(index: usize, offset: usize) -> (r: (usize, usize))
    requires
        index + offset <= usize::MAX,
    ensures
        (r.0 as nat, r.1 as nat) == slot_of(index as nat, offset as nat),
{
    let slot = index + offset;
    (slot / 7, slot % 7)
}

/// The day under the cell at (`col`, `row`), if a drawn day is there: the
/// inverse of `slot_of`, limited to the first `min(len, cells)` days.
pub open spec fn day_at(col: int, row: int, offset: nat, len: nat, cells: nat) -> Option<nat> {
    if col < 0 || row < 0 || row > 6 {
        None
    } else {
        let slot = col * 7 + row;
        if slot < offset {
            None
        } else {
            let index = slot - offset;
            if index < len && index < cells {
                Some(index as nat)
            } else {
                None
            }
        }
    }
}

/// The index of the day drawn at grid cell (`col`, `row`), for the hover
/// tooltip.
pub fn cell_day(col: i64, row: i64, offset: usize, len: usize, cells: usize) -> (r: Option<usize>)
    requires
        col <= 100_000_000,
    ensures
        match r {
            Some(i) => day_at(col as int, row as int, offset as nat, len as nat, cells as nat) == Some(i as nat),
            None => day_at(col as int, row as int, offset as nat, len as nat, cells as nat) is None,
        },
{
    if col < 0 || row < 0 || row > 6 {
        return None;
    }
    let slot: u64 = col as u64 * 7 + row as u64;
    if slot < offset as u64 {
        return None;
    }
    let index: u64 = slot - offset as u64;
    if index < len as u64 && index < cells as u64 {
        Some(index as usize)
    } else {
        None
    }
}

/// The hover lookup is the inverse of the drawing: every drawn day is found
/// again under the cell it was drawn in.
pub proof fn lemma_cell_day_inverts_slot(index: nat, offset: nat, len: nat, cells: nat)
    requires
        offset < 7,
        index < len,
        index < cells,
    ensures
        day_at(slot_of(index, offset).0 as int, slot_of(index, offset).1 as int, offset, len, cells) == Some(index),
{
    let s = index + offset;
    assert(s == (s / 7) * 7 + s % 7) by (nonlinear_arith);
}

/// One CSV field for a project name: commas become spaces.
pub open spec fn csv_safe(s: Seq<char>) -> Seq<char> {
    s.map_values(|c: char| if c == ',' { ' ' } else { c })
}

/// The CSV spelling of a completion state.
pub open spec fn completion_field(c: Option<bool>) -> Seq<char> {
    match c {
        Some(true) => "true"@,
        Some(false) => "false"@,
        None => ""@,
    }
}

/// One CSV line for a session record.
pub open spec fn csv_line(r: SessionRecord) -> Seq<char> {
    r.date@ + ","@ + csv_safe(r.project@) + ","@ + dec(r.seconds as nat) + ","@ + completion_field(r.completed)
        + "\n"@
}

/// The CSV lines of the first `n` records.
pub open spec fn csv_lines(s: Seq<SessionRecord>, n: int) -> Seq<char>
    decreases n,
{
    if n <= 0 || n > s.len() {
        Seq::empty()
    } else {
        csv_lines(s, n - 1) + csv_line(s[n - 1])
    }
}

/// The header line followed by one line per session, in order.
pub open spec fn csv_text(s: Seq<SessionRecord>) -> Seq<char> {
    "date,project,seconds,completed\n"@ + csv_lines(s, s.len() as int)
}

fn push_csv_safe(out: &mut Vec<char>, s: &str)
    ensures
        final(out)@ == old(out)@ + csv_safe(s@),
{
    let v = chars_of(s);
    let ghost start = out@;
    let mut i: usize = 0;
    while i < v.len()
        invariant
            i <= v@.len(),
            v@ == s@,
            out@ == start + csv_safe(v@.take(i as int)),
        decreases v@.len() - i,
    {
        let c = v[i];
        out.push(if c == ',' { ' ' } else { c });
        assert(csv_safe(v@.take(i as int + 1)) =~= csv_safe(v@.take(i as int)).push(if c == ',' { ' ' } else { c }));
        i = i + 1;
    }
    assert(v@.take(v@.len() as int) =~= v@);
}

/// The session history as CSV, for export: a header, then date, project
/// (commas replaced by spaces), seconds and completion state per session.
pub fn sessions_csv(sessions: &[SessionRecord]) -> (r: String)
    ensures
        r@ == csv_text(sessions@),
{
    let mut out: Vec<char> = Vec::new();
    push_str(&mut out, "date,project,seconds,completed\n");
    let ghost head = out@;
    let mut i: usize = 0;
    while i < sessions.len()
        invariant
            i <= sessions@.len(),
            head == "date,project,seconds,completed\n"@,
            out@ == head + csv_lines(sessions@, i as int),
        decreases sessions@.len() - i,
    {
        let s = &sessions[i];
        let ghost before = out@;
        push_str(&mut out, s.date.as_str());
        push_str(&mut out, ",");
        push_csv_safe(&mut out, s.project.as_str());
        push_str(&mut out, ",");
        push_dec(&mut out, s.seconds);
        push_str(&mut out, ",");
        match s.completed {
            Some(true) => push_str(&mut out, "true"),
            Some(false) => push_str(&mut out, "false"),
            None => push_str(&mut out, ""),
        }
        push_str(&mut out, "\n");
        assert(out@ =~= before + csv_line(sessions@[i as int]));
        i = i + 1;
    }
    string_of(out)
}

/// The largest of the first `n` values (0 for none).
pub open spec fn max_of(values: Seq<(String, u64)>, n: int) -> nat
    decreases n,
{
    if n <= 0 || n > values.len() {
        0
    } else {
        let m = max_of(values, n - 1);
        if values[n - 1].1 > m {
            values[n - 1].1 as nat
        } else {
            m
        }
    }
}

/// How many bars are drawn: at most `max_bars`.
pub open spec fn shown_bars(len: nat, max_bars: nat) -> nat {
    if len < max_bars {
        len
    } else {
        max_bars
    }
}

/// What a full-width bar stands for: the `reference` when given, but never
/// below the largest bar drawn (so no bar overflows its track), and at least
/// 1; with no reference, the largest bar drawn (1 when none is drawn).
pub open spec fn bar_ceiling(bars: Seq<(String, u64)>, max_bars: nat, reference: Option<u64>) -> nat {
    let shown = shown_bars(bars.len(), max_bars);
    let in_chart = if shown == 0 {
        1
    } else {
        max_of(bars, shown as int)
    };
    let base = match reference {
        Some(r) => r as nat,
        None => in_chart,
    };
    let top = if base > in_chart {
        base
    } else {
        in_chart
    };
    if top > 1 {
        top
    } else {
        1
    }
}

proof fn lemma_max_of_bounds(values: Seq<(String, u64)>, n: int, k: int)
    requires
        0 <= k < n <= values.len(),
    ensures
        values[k].1 <= max_of(values, n),
        max_of(values, n) <= u64::MAX,
    decreases n,
{
    let prev = max_of(values, n - 1);
    if k < n - 1 {
        lemma_max_of_bounds(values, n - 1, k);
    } else if n > 1 {
        lemma_max_of_bounds(values, n - 1, 0);
    } else {
        assert(prev == 0);
    }
    assert(prev <= u64::MAX);
    assert(values[n - 1].1 <= u64::MAX);
    assert(max_of(values, n) == if values[n - 1].1 > prev {
        values[n - 1].1 as nat
    } else {
        prev
    });
}

/// The value a full-width bar of the bar chart represents.
pub fn bar_scale(bars: &[(String, u64)], max_bars: usize, reference: Option<u64>) -> (r: u64)
    ensures
        r == bar_ceiling(bars@, max_bars as nat, reference),
{
    let shown: usize = if bars.len() < max_bars { bars.len() } else { max_bars };
    let mut in_chart: u64 = 0;
    let mut i: usize = 0;
    while i < shown
        invariant
            shown <= bars@.len(),
            i <= shown,
            in_chart == max_of(bars@, i as int),
        decreases shown - i,
    {
        if bars[i].1 > in_chart {
            in_chart = bars[i].1;
        }
        i = i + 1;
    }
    if shown == 0 {
        in_chart = 1;
    }
    let base = match reference {
        Some(r) => r,
        None => in_chart,
    };
    let top = if base > in_chart { base } else { in_chart };
    if top > 1 { top } else { 1 }
}

/// No drawn bar is longer than its track: every bar shown is at most the
/// ceiling, which is never 0.
pub proof fn lemma_bars_fit_their_track(bars: Seq<(String, u64)>, max_bars: nat, reference: Option<u64>, k: int)
    requires
        0 <= k < shown_bars(bars.len(), max_bars),
    ensures
        bars[k].1 <= bar_ceiling(bars, max_bars, reference),
        bar_ceiling(bars, max_bars, reference) >= 1,
{
    lemma_max_of_bounds(bars, shown_bars(bars.len(), max_bars) as int, k);
}

/// A bar's label: at most its first 14 characters.
pub fn bar_label(label: &str) -> (r: String)
    ensures
        r@ == label@.take(if label@.len() < 14 { label@.len() as int } else { 14 }),
{
    let v = chars_of(label);
    let n: usize = if v.len() < 14 { v.len() } else { 14 };
    let mut out: Vec<char> = Vec::new();
    let mut i: usize = 0;
    while i < n
        invariant
            n <= v@.len(),
            v@ == label@,
            i <= n,
            out@ == v@.take(i as int),
        decreases n - i,
    {
        out.push(v[i]);
        i = i + 1;
        assert(out@ =~= v@.take(i as int));
    }
    string_of(out)
}

/// The goal ring celebrates only a goal the user actually set and met.
pub fn ring_done(celebrate: bool, goal_seconds: u64, today_seconds: u64) -> (r: bool)
    ensures
        r == (celebrate && goal_seconds > 0 && today_seconds >= goal_seconds),
{
    celebrate && goal_seconds > 0 && today_seconds >= goal_seconds
}

/// The English three-letter abbreviation of month `m` (1–12), as chrono's
/// `%b` prints it.
pub open spec fn month_abbrev(m: int) -> Seq<char> {
    if m == 1 {
        "Jan"@
    } else if m == 2 {
        "Feb"@
    } else if m == 3 {
        "Mar"@
    } else if m == 4 {
        "Apr"@
    } else if m == 5 {
        "May"@
    } else if m == 6 {
        "Jun"@
    } else if m == 7 {
        "Jul"@
    } else if m == 8 {
        "Aug"@
    } else if m == 9 {
        "Sep"@
    } else if m == 10 {
        "Oct"@
    } else if m == 11 {
        "Nov"@
    } else {
        "Dec"@
    }
}

fn push_month_abbrev(out: &mut Vec<char>, m: u32)
    requires
        1 <= m <= 12,
    ensures
        final(out)@ == old(out)@ + month_abbrev(m as int),
{
    let name = if m == 1 {
        "Jan"
    } else if m == 2 {
        "Feb"
    } else if m == 3 {
        "Mar"
    } else if m == 4 {
        "Apr"
    } else if m == 5 {
        "May"
    } else if m == 6 {
        "Jun"
    } else if m == 7 {
        "Jul"
    } else if m == 8 {
        "Aug"
    } else if m == 9 {
        "Sep"
    } else if m == 10 {
        "Oct"
    } else if m == 11 {
        "Nov"
    } else {
        "Dec"
    };
    push_str(out, name);
}

/// The hover caption of a chart point: the date as `%b %-d` ("Jul 27"),
/// then ` · ` and the short duration.
pub open spec fn caption_for(month: int, day: int, seconds: nat) -> Seq<char> {
    month_abbrev(month) + " "@ + dec(day as nat) + " · "@ + short_duration(seconds)
}

/// The hover caption for a point dated `month`/`day` with `seconds` logged.
pub fn caption_on(month: u32, day: u32, seconds: u64) -> (r: String)
    requires
        1 <= month <= 12,
    ensures
        r@ == caption_for(month as int, day as int, seconds as nat),
{
    let mut out: Vec<char> = Vec::new();
    push_month_abbrev(&mut out, month);
    push_str(&mut out, " ");
    push_dec(&mut out, day as u64);
    push_str(&mut out, " · ");
    let short = format_short(seconds);
    push_str(&mut out, short.as_str());
    assert(out@ =~= caption_for(month as int, day as int, seconds as nat));
    string_of(out)
}

/// The caption shown when hovering the point for day `d` with `seconds`
/// logged; `None` where chrono has no date with that day number.
pub fn hover_caption(d: i32, seconds: u64) -> (r: Option<String>)
    ensures
        match r {
            Some(s) => ymd_of_day(d as int) matches Some((_, m, day)) && s@ == caption_for(m, day, seconds as nat),
            None => ymd_of_day(d as int) is None,
        },
{
    match ymd_of(d) {
        Some((_, m, day)) => Some(caption_on(m, day, seconds)),
        None => None,
    }
}

} // verus!
