use chrono::{Datelike, Local, NaiveDate};
use pawpause_applet::stats::{
    best_day, completion_summary, daily_breakdown, encouragement, format_duration, format_hhmm, log_session, summary,
    today_seconds, week_breakdown, week_over_week, weekday_profile, SessionRecord,
};

fn rec(date: &str, project: &str, seconds: u64) -> SessionRecord {
    SessionRecord { date: date.to_string(), project: project.to_string(), seconds, ended_at_epoch: 0, completed: None }
}

fn rec_completed(date: &str, seconds: u64, completed: Option<bool>) -> SessionRecord {
    SessionRecord { completed, ..rec(date, "", seconds) }
}

fn ymd(d: NaiveDate) -> String {
    d.format("%Y-%m-%d").to_string()
}

#[test]
fn streak_counts_consecutive_days_ending_today_or_yesterday() {
    let today = Local::now().date_naive();
    let y1 = today - chrono::Duration::days(1);
    let y2 = today - chrono::Duration::days(2);
    let sessions = vec![rec(&ymd(today), "A", 60), rec(&ymd(y1), "A", 60), rec(&ymd(y2), "A", 60)];
    let s = summary(&sessions);
    assert_eq!(s.day_streak, 3);
    assert_eq!(s.days_accessed, 3);
}

#[test]
fn streak_survives_no_session_yet_today() {
    let today = Local::now().date_naive();
    let y1 = today - chrono::Duration::days(1);
    let sessions = vec![rec(&ymd(y1), "A", 60)];
    let s = summary(&sessions);
    assert_eq!(s.day_streak, 1);
}

#[test]
fn streak_breaks_on_gap() {
    let today = Local::now().date_naive();
    let gap = today - chrono::Duration::days(3);
    let sessions = vec![rec(&ymd(gap), "A", 60)];
    let s = summary(&sessions);
    assert_eq!(s.day_streak, 0);
}

#[test]
fn week_breakdown_groups_by_project_and_formats_hhmm() {
    let today = ymd(Local::now().date_naive());
    let sessions = vec![rec(&today, "Alpha", 3600 + 1800), rec(&today, "Alpha", 600), rec(&today, "", 60)];
    let rows = week_breakdown(&sessions);
    assert_eq!(rows[0].0, "Alpha");
    assert_eq!(format_hhmm(rows[0].1), "01:40");
    assert_eq!(rows[1].0, "No project");
}

#[test]
fn daily_breakdown_is_zero_filled_and_ascending() {
    let today = Local::now().date_naive();
    let y1 = today - chrono::Duration::days(1);
    // y2 (2 days ago) deliberately has no session — should show as 0.
    let sessions = vec![rec_completed(&ymd(today), 120, Some(true)), rec_completed(&ymd(y1), 60, Some(true))];
    let rows = daily_breakdown(&sessions, 3);
    assert_eq!(rows.len(), 3);
    assert_eq!(rows[0].0, (today - chrono::Duration::days(2)).num_days_from_ce());
    assert_eq!(rows[0].1, 0);
    assert_eq!(rows[1].0, y1.num_days_from_ce());
    assert_eq!(rows[1].1, 60);
    assert_eq!(rows[2].0, today.num_days_from_ce());
    assert_eq!(rows[2].1, 120);
}

#[test]
fn format_duration_reads_naturally_at_every_scale() {
    assert_eq!(format_duration(34 * 60), "34m");
    assert_eq!(format_duration(2 * 3600 + 15 * 60), "2h 15m");
    assert_eq!(format_duration(3 * 3600), "3h");
    assert_eq!(format_duration(30), "0m");
}

#[test]
fn week_over_week_compares_the_same_number_of_days() {
    let today = Local::now().date_naive();
    let days_in = today.weekday().num_days_from_monday() as i64;
    let this_start = today - chrono::Duration::days(days_in);
    // Same weekday position one week earlier — always inside the compared slice.
    let last_equivalent = this_start - chrono::Duration::days(7) + chrono::Duration::days(days_in);
    let sessions = vec![rec(&ymd(today), "A", 600), rec(&ymd(last_equivalent), "A", 300)];
    assert_eq!(week_over_week(&sessions), (600, 300));
}

#[test]
fn best_day_picks_the_highest_total_across_sessions() {
    let sessions = vec![rec("2026-01-01", "A", 600), rec("2026-01-02", "A", 400), rec("2026-01-02", "B", 500)];
    let (date, seconds) = best_day(&sessions).expect("has data");
    assert_eq!(date, NaiveDate::from_ymd_opt(2026, 1, 2).unwrap().num_days_from_ce());
    assert_eq!(seconds, 900);
    assert_eq!(best_day(&[]), None);
}

#[test]
fn weekday_profile_buckets_by_day_of_week() {
    let today = Local::now().date_naive();
    let sessions = vec![rec(&ymd(today), "A", 600)];
    let profile = weekday_profile(&sessions, 4);
    assert_eq!(profile[today.weekday().num_days_from_monday() as usize], 600);
    assert_eq!(profile.iter().sum::<u64>(), 600);
}

#[test]
fn encouragement_never_congratulates_an_empty_day() {
    assert!(encouragement(0, 120, 0).contains("start"));
    assert!(encouragement(0, 120, 4).contains("4-day streak"));
    // Goal met.
    assert!(encouragement(3600, 30, 3).contains("3 days"));
    // Partway: reports minutes remaining, rounded up.
    assert!(encouragement(600, 30, 0).contains("20 more minutes"));
}

#[test]
fn today_seconds_sums_only_todays_records() {
    let today = ymd(Local::now().date_naive());
    let sessions = vec![rec(&today, "A", 120), rec("2020-01-01", "A", 999)];
    assert_eq!(today_seconds(&sessions), 120);
}

#[test]
fn completion_summary_splits_completed_skipped_and_unknown() {
    let sessions = vec![
        rec_completed("2026-01-01", 60, Some(true)),
        rec_completed("2026-01-02", 60, Some(true)),
        rec_completed("2026-01-03", 60, Some(false)),
        rec_completed("2026-01-04", 60, None),
    ];
    let s = completion_summary(&sessions);
    assert_eq!(s.completed, 2);
    assert_eq!(s.skipped_or_stopped, 1);
    assert_eq!(s.unknown, 1);
}

#[test]
fn completion_buckets_add_up_to_all_sessions() {
    let sessions = vec![
        rec_completed("2026-01-01", 60, Some(false)),
        rec_completed("2026-01-02", 60, None),
        rec_completed("2026-01-03", 60, None),
        rec_completed("2026-01-04", 60, Some(true)),
        rec_completed("2026-01-05", 60, Some(false)),
    ];
    let s = completion_summary(&sessions);
    assert_eq!(s.completed + s.skipped_or_stopped + s.unknown, sessions.len() as u32);
}

#[test]
fn format_hhmm_pads_hours_and_minutes() {
    assert_eq!(format_hhmm(0), "00:00");
    assert_eq!(format_hhmm(59), "00:00");
    assert_eq!(format_hhmm(3600 + 1800 + 600), "01:40");
    assert_eq!(format_hhmm(100 * 3600 + 5 * 60), "100:05");
}

#[test]
fn encouragement_covers_every_case() {
    assert_eq!(encouragement(0, 0, 0), "No sessions yet. One 25-minute block is enough to start.");
    assert_eq!(encouragement(1800, 30, 1), "Goal met today. That's the hard part done.");
    assert_eq!(encouragement(1800, 30, 5), "Goal met — 5 days running. Momentum is real.");
    assert_eq!(encouragement(61, 30, 0), "29 more minutes to hit today's goal.");
    assert_eq!(encouragement(2 * 3600 + 60, 0, 2), "2h 1m focused so far today.");
}

#[test]
fn summary_totals_seconds_and_distinct_days() {
    let sessions = vec![rec("2020-01-01", "A", 100), rec("2020-01-01", "B", 50), rec("not a date", "C", 7)];
    let s = summary(&sessions);
    assert_eq!(s.total_seconds, 157);
    assert_eq!(s.days_accessed, 1);
    assert_eq!(s.day_streak, 0);
}

#[test]
fn best_day_breaks_ties_toward_the_later_date() {
    let sessions = vec![rec("2026-01-01", "A", 600), rec("2026-01-03", "A", 600), rec("2026-01-02", "A", 100)];
    let (date, seconds) = best_day(&sessions).unwrap();
    assert_eq!(date, NaiveDate::from_ymd_opt(2026, 1, 3).unwrap().num_days_from_ce());
    assert_eq!(seconds, 600);
}

#[test]
fn week_breakdown_orders_by_time_then_name() {
    let today = ymd(Local::now().date_naive());
    let sessions = vec![
        rec(&today, "Beta", 300),
        rec(&today, "Alpha", 300),
        rec(&today, "  ", 900),
        rec("2001-01-01", "Old", 5000),
    ];
    let rows = week_breakdown(&sessions);
    assert_eq!(rows.len(), 3);
    assert_eq!(rows[0], ("No project".to_string(), 900));
    assert_eq!(rows[1], ("Alpha".to_string(), 300));
    assert_eq!(rows[2], ("Beta".to_string(), 300));
}

#[test]
fn log_session_skips_empty_sessions() {
    let mut sessions = vec![rec("2026-01-01", "A", 60)];
    assert!(!log_session(&mut sessions, "B", 0, true, "2026-01-02".to_string(), 1));
    assert_eq!(sessions.len(), 1);
    assert!(log_session(&mut sessions, "B", 90, false, "2026-01-02".to_string(), 1767312000));
    assert_eq!(sessions.len(), 2);
    let last = &sessions[1];
    assert_eq!(last.date, "2026-01-02");
    assert_eq!(last.project, "B");
    assert_eq!(last.seconds, 90);
    assert_eq!(last.ended_at_epoch, 1767312000);
    assert_eq!(last.completed, Some(false));
}
