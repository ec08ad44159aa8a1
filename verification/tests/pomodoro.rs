use pawpause_applet::config::Config;
use pawpause_applet::pomodoro::{Phase, Pomodoro, RunState};

fn quick_config() -> Config {
    Config {
        work_minutes: 1,
        short_break_minutes: 1,
        long_break_minutes: 2,
        sessions_before_long_break: 2,
        video_path: String::new(),
        wayland_output: "eDP-1".to_string(),
    }
}

#[test]
fn phase_labels_and_breaks() {
    assert_eq!(Phase::Work.label(), "Work");
    assert_eq!(Phase::ShortBreak.label(), "Short break");
    assert_eq!(Phase::LongBreak.label(), "Long break");
    assert!(!Phase::Work.is_break());
    assert!(Phase::ShortBreak.is_break());
    assert!(Phase::LongBreak.is_break());
}

#[test]
fn a_new_timer_is_idle() {
    let p = Pomodoro::new();
    assert_eq!(p.state, RunState::Idle);
    assert_eq!(p.phase, None);
    assert_eq!(p.status_text(), "Idle");
    assert_eq!(p.short_time_text(), "—");
}

#[test]
fn start_enters_work_with_the_configured_length() {
    let cfg = quick_config();
    let mut p = Pomodoro::new();
    let t = p.start(&cfg).unwrap();
    assert_eq!(t.old_phase, None);
    assert_eq!(t.new_phase, Some(Phase::Work));
    assert_eq!(t.old_phase_elapsed_secs, 0);
    assert_eq!(p.state, RunState::Running);
    assert_eq!(p.remaining, 60);
    assert_eq!(p.status_text(), "Work — 01:00 left");
    assert!(p.start(&cfg).is_none());
}

#[test]
fn a_phase_lasts_exactly_its_length_in_ticks() {
    let cfg = quick_config();
    let mut p = Pomodoro::new();
    p.start(&cfg);
    for _ in 0..59 {
        assert!(p.tick(&cfg).is_none());
    }
    assert_eq!(p.short_time_text(), "00:01");
    let t = p.tick(&cfg).unwrap();
    assert_eq!(t.old_phase, Some(Phase::Work));
    assert_eq!(t.new_phase, Some(Phase::ShortBreak));
    assert_eq!(t.old_phase_elapsed_secs, 60);
    assert_eq!(p.session_count, 1);
}

#[test]
fn every_second_work_session_earns_a_long_break() {
    let cfg = quick_config();
    let mut p = Pomodoro::new();
    p.start(&cfg);
    assert_eq!(p.skip(&cfg).unwrap().new_phase, Some(Phase::ShortBreak));
    assert_eq!(p.skip(&cfg).unwrap().new_phase, Some(Phase::Work));
    assert_eq!(p.skip(&cfg).unwrap().new_phase, Some(Phase::LongBreak));
    assert_eq!(p.remaining, 120);
    assert_eq!(p.session_count, 2);
}

#[test]
fn pausing_freezes_the_countdown() {
    let cfg = quick_config();
    let mut p = Pomodoro::new();
    p.start(&cfg);
    p.tick(&cfg);
    p.pause();
    assert_eq!(p.state, RunState::Paused);
    for _ in 0..10 {
        assert!(p.tick(&cfg).is_none());
    }
    assert_eq!(p.remaining, 59);
    assert_eq!(p.status_text(), "Work — 00:59 left (paused)");
    p.resume();
    assert_eq!(p.state, RunState::Running);
    p.tick(&cfg);
    assert_eq!(p.remaining, 58);
}

#[test]
fn skip_reports_how_long_the_phase_ran() {
    let cfg = quick_config();
    let mut p = Pomodoro::new();
    p.start(&cfg);
    for _ in 0..25 {
        p.tick(&cfg);
    }
    let t = p.skip(&cfg).unwrap();
    assert_eq!(t.old_phase_elapsed_secs, 25);
}

#[test]
fn stop_resets_and_reports_the_elapsed_time() {
    let cfg = quick_config();
    let mut p = Pomodoro::new();
    p.start(&cfg);
    for _ in 0..7 {
        p.tick(&cfg);
    }
    let t = p.stop().unwrap();
    assert_eq!(t.old_phase, Some(Phase::Work));
    assert_eq!(t.new_phase, None);
    assert_eq!(t.old_phase_elapsed_secs, 7);
    assert_eq!(p.state, RunState::Idle);
    assert_eq!(p.phase, None);
    assert_eq!(p.session_count, 0);
    assert!(p.stop().is_none());
    assert!(p.skip(&cfg).is_none());
}

#[test]
fn zero_cadence_never_gives_a_long_break() {
    let mut cfg = quick_config();
    cfg.sessions_before_long_break = 0;
    let mut p = Pomodoro::new();
    p.start(&cfg);
    for _ in 0..6 {
        let t = p.skip(&cfg).unwrap();
        assert_ne!(t.new_phase, Some(Phase::LongBreak));
    }
}

#[test]
fn a_huge_phase_length_saturates() {
    let mut cfg = quick_config();
    cfg.work_minutes = u64::MAX;
    let mut p = Pomodoro::new();
    p.start(&cfg);
    assert_eq!(p.remaining, i64::MAX);
}

#[test]
fn pause_then_resume_restores_the_exact_state() {
    let cfg = quick_config();
    let mut p = Pomodoro::new();
    p.start(&cfg);
    p.tick(&cfg);
    let before = (p.state, p.phase, p.remaining, p.session_count);
    p.pause();
    p.resume();
    assert_eq!((p.state, p.phase, p.remaining, p.session_count), before);
}

#[test]
fn stop_then_start_is_a_fresh_start() {
    let cfg = quick_config();
    let mut used = Pomodoro::new();
    used.start(&cfg);
    used.skip(&cfg);
    used.skip(&cfg);
    used.stop();
    used.start(&cfg);
    let mut fresh = Pomodoro::new();
    fresh.start(&cfg);
    assert_eq!(
        (used.state, used.phase, used.remaining, used.session_count),
        (fresh.state, fresh.phase, fresh.remaining, fresh.session_count)
    );
}

#[test]
fn ticking_alone_follows_the_long_break_cadence() {
    let cfg = quick_config();
    let mut p = Pomodoro::new();
    p.start(&cfg);
    let mut after_work = Vec::new();
    for _ in 0..(60 * 14) {
        if let Some(t) = p.tick(&cfg) {
            if t.old_phase == Some(Phase::Work) {
                after_work.push(t.new_phase);
                assert_eq!(p.session_count as usize, after_work.len());
            } else {
                assert_eq!(t.new_phase, Some(Phase::Work));
            }
        }
        assert_eq!(p.state, RunState::Running);
        assert!(p.remaining >= 0);
    }
    assert_eq!(
        &after_work[..4],
        &[Some(Phase::ShortBreak), Some(Phase::LongBreak), Some(Phase::ShortBreak), Some(Phase::LongBreak)]
    );
}
