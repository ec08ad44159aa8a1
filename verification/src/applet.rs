//! The panel applet's decisions: what each button or tick does to the timer,
//! what a phase change sets off, and what the panel shows.
use vstd::prelude::*;
use crate::config::Config;
use crate::pomodoro::{Phase, RunState, Pomodoro, PomodoroModel, Transition};

verus! {

/// What the applet's timer controls and its one-second clock ask for.
#[derive(Debug, Clone, Copy, PartialEq, Eq, Structural)]
pub enum AppletCommand {
    Tick,
    Start,
    PauseResume,
    Skip,
    Stop,
}

/// The timer after `cmd`, and the phase transition it caused: play/pause
/// toggles between running and paused and does nothing while idle.
pub open spec fn command_step(m: PomodoroModel, cfg: Config, cmd: AppletCommand) -> (PomodoroModel, Option<Transition>) {
    match cmd {
        AppletCommand::Tick => m.tick(cfg),
        AppletCommand::Start => m.start(cfg),
        AppletCommand::PauseResume => match m.state {
            RunState::Running => (m.pause(), None),
            RunState::Paused => (m.resume(), None),
            RunState::Idle => (m, None),
        },
        AppletCommand::Skip => m.skip(cfg),
        AppletCommand::Stop => m.stop(),
    }
}

/// The timer can carry out `cmd` without overflowing its counters.
pub open spec fn command_allowed(m: PomodoroModel, cmd: AppletCommand) -> bool {
    match cmd {
        AppletCommand::Tick => m.can_tick(),
        AppletCommand::Skip => m.can_count(),
        _ => true,
    }
}

/// Applies one timer command and returns the phase transition, if any,
/// for the caller to act on (see `transition_effects`).
pub fn run_command(pomodoro: &mut Pomodoro, config: &Config, cmd: AppletCommand) -> (r: Option<Transition>)
    requires
        old(pomodoro).wf(),
        command_allowed(old(pomodoro).model(), cmd),
    ensures
        final(pomodoro).wf(),
        (final(pomodoro).model(), r) == command_step(old(pomodoro).model(), *config, cmd),
{
    match cmd {
        AppletCommand::Tick => pomodoro.tick(config),
        AppletCommand::Start => pomodoro.start(config),
        AppletCommand::PauseResume => {
            match pomodoro.state {
                RunState::Running => pomodoro.pause(),
                RunState::Paused => pomodoro.resume(),
                RunState::Idle => {},
            }
            None
        },
        AppletCommand::Skip => pomodoro.skip(config),
        AppletCommand::Stop => pomodoro.stop(),
    }
}

/// What a phase transition sets off: whether the break overlay stops and
/// whether it starts, and the desktop notification to send.
pub struct TransitionEffects {
    pub stop_overlay: bool,
    pub start_overlay: bool,
    pub title: String,
    pub body: String,
}

/// The notification title for entering `new_phase` (`None`: stopped).
pub open spec fn notice_title(new_phase: Option<Phase>) -> Seq<char> {
    match new_phase {
        Some(Phase::Work) => "Back to work"@,
        Some(Phase::ShortBreak) => "Break time"@,
        Some(Phase::LongBreak) => "Long break"@,
        None => "PawPause"@,
    }
}

/// The notification body for entering `new_phase` (`None`: stopped).
pub open spec fn notice_body(new_phase: Option<Phase>) -> Seq<char> {
    match new_phase {
        Some(Phase::Work) => "Focus time started."@,
        Some(Phase::ShortBreak) => "Step away for a short break."@,
        Some(Phase::LongBreak) => "Nice work — take a longer break."@,
        None => "Stopped."@,
    }
}

/// Whether `p` is a break phase.
pub open spec fn is_break_phase(p: Option<Phase>) -> bool {
    match p {
        Some(ph) => ph != Phase::Work,
        None => false,
    }
}

/// Leaving a break stops the overlay, entering one starts it, and every
/// transition is announced.
pub fn transition_effects(old_phase: Option<Phase>, new_phase: Option<Phase>) -> (e: TransitionEffects)
    ensures
        e.stop_overlay == is_break_phase(old_phase),
        e.start_overlay == is_break_phase(new_phase),
        e.title@ == notice_title(new_phase),
        e.body@ == notice_body(new_phase),
{
    let stop_overlay = match old_phase {
        Some(p) => p.is_break(),
        None => false,
    };
    let start_overlay = match new_phase {
        Some(p) => p.is_break(),
        None => false,
    };
    let (title, body) = match new_phase {
        Some(Phase::Work) => ("Back to work", "Focus time started."),
        Some(Phase::ShortBreak) => ("Break time", "Step away for a short break."),
        Some(Phase::LongBreak) => ("Long break", "Nice work — take a longer break."),
        None => ("PawPause", "Stopped."),
    };
    TransitionEffects {
        stop_overlay,
        start_overlay,
        title: String::from_str(title),
        body: String::from_str(body),
    }
}

/// The icon the panel shows: paused, idle, or the current phase.
pub open spec fn icon_for(state: RunState, phase: Option<Phase>) -> Seq<char> {
    if state == RunState::Paused {
        "media-playback-pause-symbolic"@
    } else {
        match phase {
            None => "alarm-symbolic"@,
            Some(Phase::Work) => "media-playback-start-symbolic"@,
            Some(Phase::ShortBreak) => "weather-clear-symbolic"@,
            Some(Phase::LongBreak) => "weather-few-clouds-symbolic"@,
        }
    }
}

/// The name of the panel icon for the timer's state.
pub fn phase_icon_name(pomodoro: &Pomodoro) -> (r: &'static str)
    ensures
        r@ == icon_for(pomodoro.state, pomodoro.phase),
{
    if pomodoro.state == RunState::Paused {
        return "media-playback-pause-symbolic";
    }
    match pomodoro.phase {
        None => "alarm-symbolic",
        Some(Phase::Work) => "media-playback-start-symbolic",
        Some(Phase::ShortBreak) => "weather-clear-symbolic",
        Some(Phase::LongBreak) => "weather-few-clouds-symbolic",
    }
}

/// The text beside the panel icon: the applet's name with no phase, else
/// the time left.
pub fn pill_label(pomodoro: &Pomodoro) -> (r: String)
    ensures
        r@ == (match pomodoro.phase {
            None => "PawPause"@,
            Some(_) => crate::pomodoro::short_time(pomodoro.model()),
        }),
{
    match pomodoro.phase {
        None => String::from_str("PawPause"),
        Some(_) => pomodoro.short_time_text(),
    }
}

/// The label of the popup's play/pause button.
pub open spec fn toggle_label_for(state: RunState) -> Seq<char> {
    match state {
        RunState::Paused => "Resume"@,
        _ => "Pause"@,
    }
}

/// The label of the popup's play/pause button for the timer's state.
pub fn toggle_label(state: RunState) -> (r: &'static str)
    ensures
        r@ == toggle_label_for(state),
{
    match state {
        RunState::Running => "Pause",
        RunState::Paused => "Resume",
        RunState::Idle => "Pause",
    }
}

/// A button of the applet's popup.
#[derive(Debug, Clone, Copy, PartialEq, Eq, Structural)]
pub enum PopupButton {
    Start,
    PauseResume,
    Skip,
    Stop,
    Settings,
}

/// The popup's buttons, top to bottom: Start while idle, otherwise
/// play/pause, Skip and Stop; Settings always last.
pub open spec fn popup_for(state: RunState) -> Seq<PopupButton> {
    if state == RunState::Idle {
        seq![PopupButton::Start, PopupButton::Settings]
    } else {
        seq![PopupButton::PauseResume, PopupButton::Skip, PopupButton::Stop, PopupButton::Settings]
    }
}

/// The buttons the popup shows for the timer's state.
pub fn popup_buttons(state: RunState) -> (r: Vec<PopupButton>)
    ensures
        r@ == popup_for(state),
{
    let mut out: Vec<PopupButton> = Vec::new();
    if state == RunState::Idle {
        out.push(PopupButton::Start);
    } else {
        out.push(PopupButton::PauseResume);
        out.push(PopupButton::Skip);
        out.push(PopupButton::Stop);
    }
    out.push(PopupButton::Settings);
    assert(out@ =~= popup_for(state));
    out
}

/// A popup button's label for the timer's state.
pub open spec fn button_text(b: PopupButton, state: RunState) -> Seq<char> {
    match b {
        PopupButton::Start => "Start Pomodoro"@,
        PopupButton::PauseResume => toggle_label_for(state),
        PopupButton::Skip => "Skip"@,
        PopupButton::Stop => "Stop/Reset"@,
        PopupButton::Settings => "Settings"@,
    }
}

/// The label of popup button `b` for the timer's state.
pub fn button_label(b: PopupButton, state: RunState) -> (r: &'static str)
    ensures
        r@ == button_text(b, state),
{
    match b {
        PopupButton::Start => "Start Pomodoro",
        PopupButton::PauseResume => toggle_label(state),
        PopupButton::Skip => "Skip",
        PopupButton::Stop => "Stop/Reset",
        PopupButton::Settings => "Settings",
    }
}

} // verus!
