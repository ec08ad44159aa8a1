use chrono::{Datelike, Local, NaiveDate};
use pawpause_applet::dashboard::{
    bar_label, bar_scale, caption_on, hover_caption, ring_done, cell_day, cell_position, completion_caption, format_short, goal_label, rendered_cells, ring_target, row_offset,
    sessions_csv, this_week_scale, trend_line, uptime_window, week_scale, zero_fill_minutes, zero_fill_minutes_on,
};
use pawpause_applet::stats::{CompletionSummary, SessionRecord};

#[test]
fn short_format_shows_seconds_below_a_minute() {
    assert_eq!(format_short(0), "0s");
    assert_eq!(format_short(32), "32s");
    assert_eq!(format_short(60), "00:01");
    assert_eq!(format_short(3600 + 1800 + 600), "01:40");
}

#[test]
fn ring_fills_toward_the_goal_then_the_best_day_then_an_hour() {
    assert_eq!(ring_target(1800, Some((1, 9000))), (1800, "of 30m goal".to_string()));
    assert_eq!(ring_target(0, Some((1, 5400))), (5400, "of best 1h 30m".to_string()));
    assert_eq!(ring_target(0, Some((1, 0))), (3600, "today".to_string()));
    assert_eq!(ring_target(0, None), (3600, "today".to_string()));
}

#[test]
fn trend_line_compares_with_last_week() {
    assert_eq!(trend_line(0, 0), "No focus logged this week yet.");
    assert_eq!(trend_line(3600, 0), "1h this week — your first week logging focus.");
    assert_eq!(trend_line(3600, 1800), "1h this week, up from 30m at this point last week.");
    assert_eq!(trend_line(1800, 1800), "30m this week, up from 30m at this point last week.");
    assert_eq!(trend_line(600, 3000), "10m this week, 40m behind last week's pace.");
    assert_eq!(trend_line(0, 60), "0m this week, 1m behind last week's pace.");
}

#[test]
fn goal_label_reads_off_or_minutes() {
    assert_eq!(goal_label(0), "Off");
    assert_eq!(goal_label(45), "45 min");
}

#[test]
fn week_scale_depends_on_how_many_projects() {
    assert_eq!(week_scale(3, 1800, 2), (None, "Time per project, Monday to today.".to_string()));
    assert_eq!(
        week_scale(1, 1800, 2),
        (
            Some(3600),
            "Time per project, Monday to today — the track is your goal so far this week (1h).".to_string()
        )
    );
    assert_eq!(
        week_scale(0, 0, 5),
        (Some(1), "Time per project, Monday to today. Set a daily goal to see this as progress.".to_string())
    );
}

#[test]
fn completion_caption_shows_the_given_percentage() {
    let none = CompletionSummary { completed: 0, skipped_or_stopped: 0, unknown: 7 };
    assert_eq!(completion_caption(&none, 0), "No finished sessions recorded yet.");
    let c = CompletionSummary { completed: 2, skipped_or_stopped: 1, unknown: 4 };
    let percent = (2.0f32 / 3.0f32 * 100.0).round() as u32;
    assert_eq!(completion_caption(&c, percent), "2 of 3 sessions run to completion (67%).");
    let half = CompletionSummary { completed: 1, skipped_or_stopped: 7, unknown: 0 };
    assert_eq!(completion_caption(&half, 13), "1 of 8 sessions run to completion (13%).");
    let all = CompletionSummary { completed: 5, skipped_or_stopped: 0, unknown: 0 };
    assert_eq!(completion_caption(&all, 100), "5 of 5 sessions run to completion (100%).");
}

#[test]
fn uptime_chart_needs_two_days_of_history() {
    assert_eq!(uptime_window(None, 100), None);
    assert_eq!(uptime_window(Some(100), 100), None);
    assert_eq!(
        uptime_window(Some(95), 100),
        Some((6, "Hours the machine was powered on. Boot history only goes back 6 days.".to_string()))
    );
    assert_eq!(
        uptime_window(Some(10), 100),
        Some((14, "Hours the machine was powered on, last 14 days. Includes time spent suspended.".to_string()))
    );
    assert_eq!(uptime_window(Some(200), 100), None);
}

#[test]
fn zero_fill_covers_each_day_ending_today() {
    let daily = vec![(98, 30), (100, 45), (90, 5)];
    assert_eq!(zero_fill_minutes_on(&daily, 100, 4), vec![(97, 0), (98, 30), (99, 0), (100, 45)]);
    assert_eq!(zero_fill_minutes_on(&daily, 100, 0), vec![]);
    let repeated = vec![(100, 1), (100, 2)];
    assert_eq!(zero_fill_minutes_on(&repeated, 100, 1), vec![(100, 2)]);
}

#[test]
fn zero_fill_ends_on_the_local_today() {
    let today = Local::now().date_naive().num_days_from_ce() as i64;
    let rows = zero_fill_minutes(&[(today, 12)], 2);
    assert_eq!(rows, vec![(today - 1, 0), (today, 12)]);
}

#[test]
fn heatmap_rows_are_weekdays() {
    let monday = NaiveDate::from_ymd_opt(2026, 7, 27).unwrap();
    assert_eq!(monday.weekday().num_days_from_monday(), 0);
    let thursday = monday + chrono::Duration::days(3);
    assert_eq!(row_offset(&[(monday.num_days_from_ce(), 1)]), 0);
    assert_eq!(row_offset(&[(thursday.num_days_from_ce(), 1)]), 3);
    assert_eq!(row_offset(&[]), 0);
    assert_eq!(rendered_cells(12), 84);
    assert_eq!(cell_position(0, 3), (0, 3));
    assert_eq!(cell_position(5, 3), (1, 1));
}

#[test]
fn hovering_a_cell_finds_the_day_drawn_there() {
    let offset = 3;
    for index in 0..20usize {
        let (col, row) = cell_position(index, offset);
        assert_eq!(cell_day(col as i64, row as i64, offset, 20, 84), Some(index));
    }
    assert_eq!(cell_day(0, 0, offset, 20, 84), None);
    assert_eq!(cell_day(0, 7, offset, 20, 84), None);
    assert_eq!(cell_day(-1, 0, offset, 20, 84), None);
    assert_eq!(cell_day(10, 0, offset, 20, 84), None);
    assert_eq!(cell_day(2, 6, 0, 100, 14), None);
}

#[test]
fn csv_export_lists_every_session() {
    let sessions = vec![
        SessionRecord {
            date: "2026-01-01".to_string(),
            project: "A, B".to_string(),
            seconds: 60,
            ended_at_epoch: 0,
            completed: Some(true),
        },
        SessionRecord { date: "2026-01-02".to_string(), project: String::new(), seconds: 5, ended_at_epoch: 0, completed: None },
        SessionRecord {
            date: "2026-01-03".to_string(),
            project: "C".to_string(),
            seconds: 0,
            ended_at_epoch: 0,
            completed: Some(false),
        },
    ];
    assert_eq!(
        sessions_csv(&sessions),
        "date,project,seconds,completed\n2026-01-01,A  B,60,true\n2026-01-02,,5,\n2026-01-03,C,0,false\n"
    );
    assert_eq!(sessions_csv(&[]), "date,project,seconds,completed\n");
}

#[test]
fn this_week_target_counts_the_days_since_monday() {
    let days = Local::now().date_naive().weekday().num_days_from_monday() as u64 + 1;
    let (reference, subtitle) = this_week_scale(1, 1800);
    assert_eq!(reference, Some(1800 * days));
    assert!(subtitle.starts_with("Time per project, Monday to today — the track is your goal so far this week ("));
    assert_eq!(this_week_scale(2, 1800).0, None);
}

#[test]
fn bar_ceiling_never_falls_below_the_largest_bar() {
    let bars = vec![("A".to_string(), 500), ("B".to_string(), 300), ("C".to_string(), 900)];
    assert_eq!(bar_scale(&bars, 8, None), 900);
    assert_eq!(bar_scale(&bars, 2, None), 500);
    assert_eq!(bar_scale(&bars, 8, Some(3600)), 3600);
    assert_eq!(bar_scale(&bars, 8, Some(100)), 900);
    assert_eq!(bar_scale(&[], 8, None), 1);
    assert_eq!(bar_scale(&[], 8, Some(0)), 1);
    assert_eq!(bar_scale(&[("Z".to_string(), 0)], 8, None), 1);
}

#[test]
fn bar_labels_are_cut_to_fourteen_characters() {
    assert_eq!(bar_label("Short"), "Short");
    assert_eq!(bar_label("A very long project name"), "A very long pr");
    assert_eq!(bar_label("ééééééééééééééééé"), "éééééééééééééé");
}

#[test]
fn the_ring_celebrates_only_a_real_goal() {
    assert!(ring_done(true, 1800, 1800));
    assert!(!ring_done(true, 1800, 1799));
    assert!(!ring_done(false, 1800, 3600));
    assert!(!ring_done(true, 0, 3600));
}

#[test]
fn hover_captions_read_month_day_and_duration() {
    let jul27 = NaiveDate::from_ymd_opt(2026, 7, 27).unwrap().num_days_from_ce();
    assert_eq!(hover_caption(jul27, 45), Some("Jul 27 · 45s".to_string()));
    let jan5 = NaiveDate::from_ymd_opt(2025, 1, 5).unwrap().num_days_from_ce();
    assert_eq!(hover_caption(jan5, 3600 + 120), Some("Jan 5 · 01:02".to_string()));
    assert_eq!(hover_caption(i32::MAX, 1), None);
    assert_eq!(caption_on(12, 31, 0), "Dec 31 · 0s");
}
