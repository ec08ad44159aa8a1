use chrono::{Datelike, Local, NaiveDate};
use pawpause_applet::dates::{date_text, format_ymd, today_text, weekday_from_monday};

#[test]
fn weekdays_count_from_monday() {
    let monday = NaiveDate::from_ymd_opt(2026, 7, 27).unwrap();
    for k in 0..14 {
        let d = monday + chrono::Duration::days(k);
        assert_eq!(weekday_from_monday(d.num_days_from_ce()), d.weekday().num_days_from_monday());
    }
    assert_eq!(weekday_from_monday(1), 0);
    assert_eq!(weekday_from_monday(0), 6);
    assert_eq!(weekday_from_monday(-6), 0);
    let early = NaiveDate::from_ymd_opt(-400, 3, 1).unwrap();
    assert_eq!(weekday_from_monday(early.num_days_from_ce()), early.weekday().num_days_from_monday());
}

#[test]
fn dates_are_written_as_chrono_writes_them() {
    assert_eq!(format_ymd(2026, 7, 5), "2026-07-05");
    assert_eq!(format_ymd(987, 12, 31), "0987-12-31");
    assert_eq!(format_ymd(-5, 1, 1), "-0005-01-01");
    assert_eq!(format_ymd(10000, 1, 1), "+10000-01-01");
    for (y, m, d) in [(2026, 7, 27), (1, 1, 1), (0, 2, 29), (-44, 3, 15), (12345, 6, 7), (-262143, 1, 1)] {
        let date = NaiveDate::from_ymd_opt(y, m, d).unwrap();
        assert_eq!(date_text(date.num_days_from_ce()), Some(date.format("%Y-%m-%d").to_string()));
    }
    assert_eq!(date_text(i32::MAX), None);
}

#[test]
fn today_is_written_like_a_logged_session_date() {
    let expected = Local::now().date_naive().format("%Y-%m-%d").to_string();
    assert_eq!(today_text(), expected);
}
