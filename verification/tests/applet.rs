use pawpause_applet::applet::{
    button_label, phase_icon_name, pill_label, popup_buttons, run_command, toggle_label, transition_effects, AppletCommand,
    PopupButton,
};
use pawpause_applet::config::Config;
use pawpause_applet::pomodoro::{Phase, Pomodoro, RunState};

fn config() -> Config {
    Config {
        work_minutes: 25,
        short_break_minutes: 5,
        long_break_minutes: 20,
        sessions_before_long_break: 4,
        video_path: String::new(),
        wayland_output: "eDP-1".to_string(),
    }
}

#[test]
fn entering_a_break_starts_the_overlay_and_leaving_stops_it() {
    let e = transition_effects(Some(Phase::Work), Some(Phase::ShortBreak));
    assert!(!e.stop_overlay);
    assert!(e.start_overlay);
    assert_eq!(e.title, "Break time");
    assert_eq!(e.body, "Step away for a short break.");

    let e = transition_effects(Some(Phase::LongBreak), Some(Phase::Work));
    assert!(e.stop_overlay);
    assert!(!e.start_overlay);
    assert_eq!(e.title, "Back to work");
    assert_eq!(e.body, "Focus time started.");

    let e = transition_effects(Some(Phase::ShortBreak), None);
    assert!(e.stop_overlay);
    assert!(!e.start_overlay);
    assert_eq!(e.title, "PawPause");
    assert_eq!(e.body, "Stopped.");

    let e = transition_effects(Some(Phase::Work), Some(Phase::LongBreak));
    assert_eq!(e.title, "Long break");
    assert_eq!(e.body, "Nice work — take a longer break.");
}

#[test]
fn play_pause_toggles_and_is_inert_when_idle() {
    let cfg = config();
    let mut p = Pomodoro::new();
    assert!(run_command(&mut p, &cfg, AppletCommand::PauseResume).is_none());
    assert_eq!(p.state, RunState::Idle);
    let t = run_command(&mut p, &cfg, AppletCommand::Start).unwrap();
    assert_eq!(t.new_phase, Some(Phase::Work));
    run_command(&mut p, &cfg, AppletCommand::PauseResume);
    assert_eq!(p.state, RunState::Paused);
    run_command(&mut p, &cfg, AppletCommand::PauseResume);
    assert_eq!(p.state, RunState::Running);
    assert!(run_command(&mut p, &cfg, AppletCommand::Tick).is_none());
    assert_eq!(p.remaining, 25 * 60 - 1);
    let t = run_command(&mut p, &cfg, AppletCommand::Skip).unwrap();
    assert_eq!(t.new_phase, Some(Phase::ShortBreak));
    let t = run_command(&mut p, &cfg, AppletCommand::Stop).unwrap();
    assert_eq!(t.new_phase, None);
}

#[test]
fn panel_shows_icon_and_time() {
    let cfg = config();
    let mut p = Pomodoro::new();
    assert_eq!(phase_icon_name(&p), "alarm-symbolic");
    assert_eq!(pill_label(&p), "PawPause");
    p.start(&cfg);
    assert_eq!(phase_icon_name(&p), "media-playback-start-symbolic");
    assert_eq!(pill_label(&p), "25:00");
    p.pause();
    assert_eq!(phase_icon_name(&p), "media-playback-pause-symbolic");
    p.resume();
    p.skip(&cfg);
    assert_eq!(phase_icon_name(&p), "weather-clear-symbolic");
    assert_eq!(pill_label(&p), "05:00");
}

#[test]
fn toggle_button_reads_resume_only_while_paused() {
    assert_eq!(toggle_label(RunState::Running), "Pause");
    assert_eq!(toggle_label(RunState::Paused), "Resume");
    assert_eq!(toggle_label(RunState::Idle), "Pause");
}

#[test]
fn popup_offers_start_only_while_idle() {
    assert_eq!(popup_buttons(RunState::Idle), vec![PopupButton::Start, PopupButton::Settings]);
    let running = vec![PopupButton::PauseResume, PopupButton::Skip, PopupButton::Stop, PopupButton::Settings];
    assert_eq!(popup_buttons(RunState::Running), running);
    assert_eq!(popup_buttons(RunState::Paused), running);
    assert_eq!(button_label(PopupButton::Start, RunState::Idle), "Start Pomodoro");
    assert_eq!(button_label(PopupButton::PauseResume, RunState::Running), "Pause");
    assert_eq!(button_label(PopupButton::PauseResume, RunState::Paused), "Resume");
    assert_eq!(button_label(PopupButton::Skip, RunState::Running), "Skip");
    assert_eq!(button_label(PopupButton::Stop, RunState::Running), "Stop/Reset");
    assert_eq!(button_label(PopupButton::Settings, RunState::Idle), "Settings");
}
