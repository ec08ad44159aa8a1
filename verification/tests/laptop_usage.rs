use chrono::{Datelike, NaiveDate};
use pawpause_applet::laptop_usage::{
    boot_sessions, daily_usage_minutes, history_starts_on, month_number, parse_duration_minutes,
    parse_last_output, resolve_date, split_at_midnight, BootSession,
};

const SAMPLE: &str = "reboot   system boot  7.0.11-76070011- Mon Jul 27 07:44   still running\nreboot   system boot  7.0.11-76070011- Mon Jul 27 04:28 - 07:44  (03:15)\nreboot   system boot  7.0.11-76070011- Sun Jul 26 17:33 - 22:26  (04:52)\nreboot   system boot  7.0.11-76070011- Fri Jul 24 20:27 - 17:18  (20:50)\n\nwtmp begins Sat Jul 11 15:59:17 2026\n";

fn day(y: i32, m: u32, d: u32) -> i64 {
    NaiveDate::from_ymd_opt(y, m, d).unwrap().num_days_from_ce() as i64
}

/// 2026-07-27 11:51 as (day number, minute of the day).
fn fixed_now() -> (i32, u32) {
    (NaiveDate::from_ymd_opt(2026, 7, 27).unwrap().num_days_from_ce(), 11 * 60 + 51)
}

fn parse_sample() -> Vec<BootSession> {
    let (d, m) = fixed_now();
    parse_last_output(SAMPLE, d, m)
}

#[test]
fn ignores_non_reboot_lines_like_the_wtmp_footer() {
    // 4 reboot lines, but the Jul 24 one spans midnight and splits in two.
    assert_eq!(parse_sample().len(), 5);
}

#[test]
fn still_running_boot_uses_elapsed_time_since_start() {
    let sessions = parse_sample();
    let today = day(2026, 7, 27);
    // 07:44 -> 11:51 fixed "now" = 247 minutes.
    assert!(sessions.iter().any(|s| s.date == today && s.minutes == 247));
}

#[test]
fn completed_boot_reads_duration_from_the_parenthetical() {
    let sessions = parse_sample();
    let jul26 = day(2026, 7, 26);
    assert!(sessions.iter().any(|s| s.date == jul26 && s.minutes == 292));
}

#[test]
fn overnight_boot_is_split_across_the_dates_it_actually_covers() {
    // "Fri Jul 24 20:27 - 17:18 (20:50)" = 1250 minutes from 20:27.
    // Jul 24 gets 20:27->midnight = 213; Jul 25 gets the remaining 1037.
    let sessions = parse_sample();
    let jul24 = day(2026, 7, 24);
    let jul25 = day(2026, 7, 25);
    assert!(sessions.iter().any(|s| s.date == jul24 && s.minutes == 213));
    assert!(sessions.iter().any(|s| s.date == jul25 && s.minutes == 1037));
}

#[test]
fn multi_day_boot_fills_whole_intermediate_days() {
    // 22:00 Jul 20 + 2 days 3h: 120 to midnight, two full days, then a
    // 60-minute tail on Jul 23.
    let split = split_at_midnight(day(2026, 7, 20), 22 * 60, 120 + 1440 + 1440 + 60);
    assert_eq!(split.len(), 4);
    assert_eq!(split[0].minutes, 120); // 22:00 -> midnight
    assert_eq!(split[1].minutes, 1440); // full day
    assert_eq!(split[2].minutes, 1440); // full day
    assert_eq!(split[3].date, day(2026, 7, 23));
    assert_eq!(split[3].minutes, 60);
}

#[test]
fn daily_usage_never_reports_more_than_a_full_day() {
    let d = day(2026, 7, 27);
    let sessions = vec![BootSession { date: d, minutes: 1000 }, BootSession { date: d, minutes: 1000 }];
    assert_eq!(daily_usage_minutes(&sessions), vec![(d, 1440)]);
}

#[test]
fn history_starts_on_reports_the_earliest_covered_date() {
    let sessions = parse_sample();
    assert_eq!(history_starts_on(&sessions), Some(day(2026, 7, 24)));
    assert_eq!(history_starts_on(&[]), None);
}

#[test]
fn daily_usage_sums_multiple_boots_on_the_same_date() {
    let jul27 = day(2026, 7, 27);
    let jul26 = day(2026, 7, 26);
    let sessions = vec![
        BootSession { date: jul27, minutes: 100 },
        BootSession { date: jul27, minutes: 50 },
        BootSession { date: jul26, minutes: 30 },
    ];
    assert_eq!(daily_usage_minutes(&sessions), vec![(jul26, 30), (jul27, 150)]);
}

#[test]
fn parse_duration_minutes_handles_multi_day_format() {
    assert_eq!(parse_duration_minutes("(03:15)"), Some(195));
    assert_eq!(parse_duration_minutes("(1+02:30)"), Some(1590));
}

#[test]
fn malformed_durations_are_none() {
    assert_eq!(parse_duration_minutes("(0315)"), None);
    assert_eq!(parse_duration_minutes("(x+02:30)"), None);
    assert_eq!(parse_duration_minutes("(02:)"), None);
    assert_eq!(parse_duration_minutes("()"), None);
}

#[test]
fn overflowing_durations_do_not_read() {
    assert_eq!(parse_duration_minutes("(99999999999999999+00:00)"), None);
    assert_eq!(parse_duration_minutes("(18446744073709551615:00)"), None);
    assert_eq!(parse_duration_minutes("(0:18446744073709551615)"), Some(u64::MAX));
    assert_eq!(parse_duration_minutes("(0:18446744073709551616)"), None);
    let (d, m) = fixed_now();
    let text = format!("{SAMPLE}reboot   system boot  k Sun Jul 26 04:28 - 07:44  (99999999999999999+00:00)\n");
    assert_eq!(parse_last_output(&text, d, m).len(), 5);
}

#[test]
fn month_abbreviations_map_to_numbers() {
    assert_eq!(month_number("Jan"), Some(1));
    assert_eq!(month_number("Dec"), Some(12));
    assert_eq!(month_number("jan"), None);
}

#[test]
fn a_date_after_today_belongs_to_last_year() {
    let today = NaiveDate::from_ymd_opt(2026, 1, 5).unwrap().num_days_from_ce();
    assert_eq!(resolve_date(12, 30, today), Some(NaiveDate::from_ymd_opt(2025, 12, 30).unwrap().num_days_from_ce()));
    assert_eq!(resolve_date(1, 5, today), Some(today));
    assert_eq!(resolve_date(2, 30, today), None);
    let march = NaiveDate::from_ymd_opt(2024, 3, 1).unwrap().num_days_from_ce();
    assert_eq!(resolve_date(2, 29, march), Some(march - 1));
    let march_common = NaiveDate::from_ymd_opt(2025, 3, 1).unwrap().num_days_from_ce();
    assert_eq!(resolve_date(2, 29, march_common), None);
}

#[test]
fn split_keeps_every_minute() {
    let split = split_at_midnight(day(2026, 3, 1), 1439, 3000);
    let total: u64 = split.iter().map(|s| s.minutes).sum();
    assert_eq!(total, 3000);
    assert_eq!(split[0].minutes, 1);
    for (k, s) in split.iter().enumerate() {
        assert_eq!(s.date, day(2026, 3, 1) + k as i64);
        assert!(s.minutes > 0 && s.minutes <= 1440);
    }
    assert!(split_at_midnight(day(2026, 3, 1), 0, 0).is_empty());
}

#[test]
fn boot_sessions_read_the_same_records_as_of_now() {
    let sessions = boot_sessions(SAMPLE);
    assert!(sessions.iter().any(|s| s.minutes == 292));
    assert!(sessions.iter().any(|s| s.minutes == 213));
    assert!(sessions.iter().any(|s| s.minutes == 1037));
}
