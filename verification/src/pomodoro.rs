//! The Pomodoro state machine: work / short-break / long-break phases driven
//! by an external one-second tick.
use vstd::prelude::*;
use crate::config::Config;
use crate::text::{chars_of, string_of, push_str, push_pad2, pad2};

verus! {

#[derive(Debug, Clone, Copy, PartialEq, Eq, Structural)]
pub enum Phase {
    Work,
    ShortBreak,
    LongBreak,
}

/// The label shown for each phase.
pub open spec fn phase_label(p: Phase) -> Seq<char> {
    match p {
        Phase::Work => "Work"@,
        Phase::ShortBreak => "Short break"@,
        Phase::LongBreak => "Long break"@,
    }
}

impl Phase {
    pub fn label(self) -> (r: &'static str)
        ensures
            r@ == phase_label(self),
    {
        match self {
            Phase::Work => "Work",
            Phase::ShortBreak => "Short break",
            Phase::LongBreak => "Long break",
        }
    }

    pub fn is_break(self) -> (r: bool)
        ensures
            r == (self != Phase::Work),
    {
        match self {
            Phase::Work => false,
            _ => true,
        }
    }
}

#[derive(Debug, Clone, Copy, PartialEq, Eq, Structural)]
pub enum RunState {
    Idle,
    Running,
    Paused,
}

/// A phase transition, with how long the phase being left had actually run
/// for (natural completion, skip, or stop all count) — used to credit focus
/// time to the right task/project.
pub struct Transition {
    pub old_phase: Option<Phase>,
    pub new_phase: Option<Phase>,
    pub old_phase_elapsed_secs: i64,
}

/// A minimal Pomodoro state machine, driven by an external 1s tick().
pub struct Pomodoro {
    pub state: RunState,
    pub phase: Option<Phase>,
    pub remaining: i64,
    pub session_count: u32,
    /// The full planned duration of the current phase, so elapsed time can be
    /// recovered as `current_phase_duration - remaining` when it ends.
    pub current_phase_duration: i64,
}

/// The configured length of `phase` in minutes.
pub open spec fn phase_minutes(phase: Phase, cfg: Config) -> nat {
    match phase {
        Phase::Work => cfg.work_minutes as nat,
        Phase::ShortBreak => cfg.short_break_minutes as nat,
        Phase::LongBreak => cfg.long_break_minutes as nat,
    }
}

/// The length of `phase` in seconds, saturating at `i64::MAX`.
pub open spec fn duration_secs(phase: Phase, cfg: Config) -> int {
    let secs = phase_minutes(phase, cfg) * 60;
    if secs > i64::MAX {
        i64::MAX as int
    } else {
        secs as int
    }
}

/// The phase that follows `phase`, and the completed-work-session count after
/// it: every finished work phase counts one session and is followed by a long
/// break when the count is a multiple of `per_long` (`per_long > 0`), else a
/// short break; every break is followed by work.
pub open spec fn next_phase(phase: Phase, count: int, per_long: int) -> (Phase, int) {
    match phase {
        Phase::Work => {
            let c = count + 1;
            if per_long > 0 && c % per_long == 0 {
                (Phase::LongBreak, c)
            } else {
                (Phase::ShortBreak, c)
            }
        },
        _ => (Phase::Work, count),
    }
}

/// The abstract state of a `Pomodoro`: its public fields plus the planned
/// length of the current phase.
pub struct PomodoroModel {
    pub state: RunState,
    pub phase: Option<Phase>,
    pub remaining: int,
    pub session_count: int,
    pub planned: int,
}

pub open spec fn max0(x: int) -> int {
    if x > 0 {
        x
    } else {
        0
    }
}

impl PomodoroModel {
    /// Seconds the current phase has run: planned minus what is left, never
    /// negative.
    pub open spec fn elapsed(self) -> int {
        max0(self.planned - max0(self.remaining))
    }

    /// The state in which `phase` has just begun (count `count`).
    pub open spec fn entered(self, phase: Phase, count: int, cfg: Config) -> PomodoroModel {
        PomodoroModel {
            phase: Some(phase),
            session_count: count,
            planned: duration_secs(phase, cfg),
            remaining: duration_secs(phase, cfg),
            ..self
        }
    }

    pub open spec fn start(self, cfg: Config) -> (PomodoroModel, Option<Transition>) {
        if self.state != RunState::Idle {
            (self, None)
        } else {
            (
                PomodoroModel { state: RunState::Running, ..self.entered(Phase::Work, 0, cfg) },
                Some(Transition { old_phase: None, new_phase: Some(Phase::Work), old_phase_elapsed_secs: 0 }),
            )
        }
    }

    pub open spec fn pause(self) -> PomodoroModel {
        if self.state == RunState::Running {
            PomodoroModel { state: RunState::Paused, ..self }
        } else {
            self
        }
    }

    pub open spec fn resume(self) -> PomodoroModel {
        if self.state == RunState::Paused {
            PomodoroModel { state: RunState::Running, ..self }
        } else {
            self
        }
    }

    pub open spec fn skip(self, cfg: Config) -> (PomodoroModel, Option<Transition>) {
        match self.phase {
            None => (self, None),
            Some(old) => {
                let (new, count) = next_phase(old, self.session_count, cfg.sessions_before_long_break as int);
                (
                    self.entered(new, count, cfg),
                    Some(Transition {
                        old_phase: Some(old),
                        new_phase: Some(new),
                        old_phase_elapsed_secs: self.elapsed() as i64,
                    }),
                )
            },
        }
    }

    pub open spec fn stop(self) -> (PomodoroModel, Option<Transition>) {
        (
            PomodoroModel { state: RunState::Idle, phase: None, remaining: 0, session_count: 0, planned: 0 },
            match self.phase {
                None => None,
                Some(p) => Some(Transition { old_phase: Some(p), new_phase: None, old_phase_elapsed_secs: self.elapsed() as i64 }),
            },
        )
    }

    pub open spec fn tick(self, cfg: Config) -> (PomodoroModel, Option<Transition>) {
        if self.state != RunState::Running || self.phase is None {
            (self, None)
        } else if self.remaining - 1 > 0 {
            (PomodoroModel { remaining: self.remaining - 1, ..self }, None)
        } else {
            let old = self.phase->0;
            let (new, count) = next_phase(old, self.session_count, cfg.sessions_before_long_break as int);
            (
                self.entered(new, count, cfg),
                Some(Transition { old_phase: Some(old), new_phase: Some(new), old_phase_elapsed_secs: self.planned as i64 }),
            )
        }
    }

    /// Leaving the current phase would not overflow the `u32` session count.
    pub open spec fn can_count(self) -> bool {
        self.phase == Some(Phase::Work) ==> self.session_count < u32::MAX
    }

    /// A tick would neither underflow `remaining` nor overflow the count.
    pub open spec fn can_tick(self) -> bool {
        (self.state == RunState::Running && self.phase is Some) ==> {
            &&& self.remaining > i64::MIN
            &&& self.remaining - 1 <= 0 ==> self.can_count()
        }
    }
}

/// `n` consecutive ticks.
pub open spec fn ticks(m: PomodoroModel, cfg: Config, n: nat) -> PomodoroModel
    decreases n,
{
    if n == 0 {
        m
    } else {
        ticks(m.tick(cfg).0, cfg, (n - 1) as nat)
    }
}

impl Pomodoro {
    /// The planned length of the current phase, in seconds.
    pub open spec fn planned(&self) -> int {
        self.current_phase_duration as int
    }

    pub open spec fn model(&self) -> PomodoroModel {
        PomodoroModel {
            state: self.state,
            phase: self.phase,
            remaining: self.remaining as int,
            session_count: self.session_count as int,
            planned: self.planned(),
        }
    }

    /// The planned duration is never negative.
    pub open spec fn wf(&self) -> bool {
        self.planned() >= 0
    }

    pub fn new() -> (p: Self)
        ensures
            p.wf(),
            p.model() == (PomodoroModel { state: RunState::Idle, phase: None, remaining: 0, session_count: 0, planned: 0 }),
    {
        Self {
            state: RunState::Idle,
            phase: None,
            remaining: 0,
            session_count: 0,
            current_phase_duration: 0,
        }
    }

    fn elapsed_in_current_phase(&self) -> (r: i64)
        requires
            self.wf(),
        ensures
            r == self.model().elapsed(),
    {
        let rem = if self.remaining > 0 { self.remaining } else { 0 };
        let e = self.current_phase_duration - rem;
        if e > 0 { e } else { 0 }
    }

    fn duration(phase: Phase, config: &Config) -> (r: i64)
        ensures
            r == duration_secs(phase, *config),
            r >= 0,
    {
        let minutes = match phase {
            Phase::Work => config.work_minutes,
            Phase::ShortBreak => config.short_break_minutes,
            Phase::LongBreak => config.long_break_minutes,
        };
        if minutes > (i64::MAX as u64) / 60 {
            i64::MAX
        } else {
            (minutes * 60) as i64
        }
    }

    fn advance(phase: Phase, session_count: u32, config: &Config) -> (r: (Phase, u32))
        requires
            phase == Phase::Work ==> session_count < u32::MAX,
        ensures
            (r.0, r.1 as int) == next_phase(phase, session_count as int, config.sessions_before_long_break as int),
    {
        match phase {
            Phase::Work => {
                let session_count = session_count + 1;
                if config.sessions_before_long_break > 0
                    && session_count % config.sessions_before_long_break == 0
                {
                    (Phase::LongBreak, session_count)
                } else {
                    (Phase::ShortBreak, session_count)
                }
            },
            Phase::ShortBreak | Phase::LongBreak => (Phase::Work, session_count),
        }
    }

    /// Returns Some(transition) if a transition occurred.
    pub fn start(&mut self, config: &Config) -> (r: Option<Transition>)
        requires
            old(self).wf(),
        ensures
            final(self).wf(),
            (final(self).model(), r) == old(self).model().start(*config),
    {
        if self.state != RunState::Idle {
            return None;
        }
        self.phase = Some(Phase::Work);
        self.current_phase_duration = Self::duration(Phase::Work, config);
        self.remaining = self.current_phase_duration;
        self.session_count = 0;
        self.state = RunState::Running;
        Some(Transition { old_phase: None, new_phase: self.phase, old_phase_elapsed_secs: 0 })
    }

    pub fn pause(&mut self)
        requires
            old(self).wf(),
        ensures
            final(self).wf(),
            final(self).model() == old(self).model().pause(),
    {
        if self.state == RunState::Running {
            self.state = RunState::Paused;
        }
    }

    pub fn resume(&mut self)
        requires
            old(self).wf(),
        ensures
            final(self).wf(),
            final(self).model() == old(self).model().resume(),
    {
        if self.state == RunState::Paused {
            self.state = RunState::Running;
        }
    }

    pub fn skip(&mut self, config: &Config) -> (r: Option<Transition>)
        requires
            old(self).wf(),
            old(self).model().can_count(),
        ensures
            final(self).wf(),
            (final(self).model(), r) == old(self).model().skip(*config),
    {
        let old_phase = match self.phase {
            Some(p) => p,
            None => return None,
        };
        let old_phase_elapsed_secs = self.elapsed_in_current_phase();
        let (new_phase, session_count) = Self::advance(old_phase, self.session_count, config);
        self.phase = Some(new_phase);
        self.session_count = session_count;
        self.current_phase_duration = Self::duration(new_phase, config);
        self.remaining = self.current_phase_duration;
        Some(Transition { old_phase: Some(old_phase), new_phase: Some(new_phase), old_phase_elapsed_secs })
    }

    pub fn stop(&mut self) -> (r: Option<Transition>)
        requires
            old(self).wf(),
        ensures
            final(self).wf(),
            (final(self).model(), r) == old(self).model().stop(),
    {
        let old_phase = self.phase;
        let old_phase_elapsed_secs = self.elapsed_in_current_phase();
        self.phase = None;
        self.state = RunState::Idle;
        self.remaining = 0;
        self.current_phase_duration = 0;
        self.session_count = 0;
        match old_phase {
            Some(p) => Some(Transition { old_phase: Some(p), new_phase: None, old_phase_elapsed_secs }),
            None => None,
        }
    }

    /// Call once per second. Returns Some(transition) if a phase auto-advanced
    /// this tick.
    pub fn tick(&mut self, config: &Config) -> (r: Option<Transition>)
        requires
            old(self).wf(),
            old(self).model().can_tick(),
        ensures
            final(self).wf(),
            (final(self).model(), r) == old(self).model().tick(*config),
    {
        if self.state != RunState::Running {
            return None;
        }
        let phase = match self.phase {
            Some(p) => p,
            None => return None,
        };
        self.remaining = self.remaining - 1;
        if self.remaining > 0 {
            return None;
        }
        let old_phase_elapsed_secs = self.current_phase_duration;
        let (new_phase, session_count) = Self::advance(phase, self.session_count, config);
        self.phase = Some(new_phase);
        self.session_count = session_count;
        self.current_phase_duration = Self::duration(new_phase, config);
        self.remaining = self.current_phase_duration;
        Some(Transition { old_phase: Some(phase), new_phase: Some(new_phase), old_phase_elapsed_secs })
    }
}


/// The popup status line: `"Idle"`, or the phase label, the time left as
/// `mm:ss`, and `" (paused)"` while paused.
pub open spec fn status_line(m: PomodoroModel) -> Seq<char> {
    match m.phase {
        None => "Idle"@,
        Some(p) => {
            let r = max0(m.remaining);
            phase_label(p) + " — "@ + pad2((r / 60) as nat) + ":"@ + pad2((r % 60) as nat) + " left"@
                + if m.state == RunState::Paused {
                " (paused)"@
            } else {
                ""@
            }
        },
    }
}

/// The compact `mm:ss` shown in the panel, or `"—"` with no phase.
pub open spec fn short_time(m: PomodoroModel) -> Seq<char> {
    match m.phase {
        None => "—"@,
        Some(_) => {
            let r = max0(m.remaining);
            pad2((r / 60) as nat) + ":"@ + pad2((r % 60) as nat)
        },
    }
}

impl Pomodoro {
    pub fn status_text(&self) -> (s: String)
        ensures
            s@ == status_line(self.model()),
    {
        match self.phase {
            None => String::from_str("Idle"),
            Some(phase) => {
                let remaining: i64 = if self.remaining > 0 { self.remaining } else { 0 };
                let mm: u64 = (remaining / 60) as u64;
                let ss: u64 = (remaining % 60) as u64;
                let mut out: Vec<char> = chars_of(phase.label());
                push_str(&mut out, " — ");
                push_pad2(&mut out, mm);
                push_str(&mut out, ":");
                push_pad2(&mut out, ss);
                push_str(&mut out, " left");
                if self.state == RunState::Paused {
                    push_str(&mut out, " (paused)");
                } else {
                    push_str(&mut out, "");
                }
                string_of(out)
            },
        }
    }

    pub fn short_time_text(&self) -> (s: String)
        ensures
            s@ == short_time(self.model()),
    {
        match self.phase {
            None => String::from_str("—"),
            Some(_) => {
                let remaining: i64 = if self.remaining > 0 { self.remaining } else { 0 };
                let mut out: Vec<char> = Vec::new();
                push_pad2(&mut out, (remaining / 60) as u64);
                push_str(&mut out, ":");
                push_pad2(&mut out, (remaining % 60) as u64);
                string_of(out)
            },
        }
    }
}

/// Pausing a running timer and resuming it gives back exactly the state it
/// had: no time is lost or gained.
pub proof fn lemma_pause_then_resume(m: PomodoroModel)
    requires
        m.state == RunState::Running,
    ensures
        m.pause().resume() == m,
{
}

/// While paused (or idle), ticks change nothing.
pub proof fn lemma_paused_ticks_are_inert(m: PomodoroModel, cfg: Config, n: nat)
    requires
        m.state != RunState::Running,
    ensures
        ticks(m, cfg, n) == m,
    decreases n,
{
    if n > 0 {
        lemma_paused_ticks_are_inert(m, cfg, (n - 1) as nat);
    }
}

/// A running phase with `r` seconds left counts down one second per tick and
/// keeps its phase for the first `r - 1` ticks; the `r`-th tick moves on to
/// the next phase (as `next_phase` says), with the full planned length
/// credited and the new phase's whole duration left.
pub proof fn lemma_phase_lasts_its_remaining_seconds(m: PomodoroModel, cfg: Config, k: nat)
    requires
        m.state == RunState::Running,
        m.phase is Some,
        k < m.remaining,
    ensures
        ticks(m, cfg, k) == (PomodoroModel { remaining: m.remaining - k, ..m }),
        ({
            let before = ticks(m, cfg, (m.remaining - 1) as nat);
            let (after, t) = before.tick(cfg);
            let (p, c) = next_phase(m.phase->0, m.session_count, cfg.sessions_before_long_break as int);
            &&& after.phase == Some(p)
            &&& after.session_count == c
            &&& after.remaining == duration_secs(p, cfg)
            &&& t == Some(Transition { old_phase: m.phase, new_phase: Some(p), old_phase_elapsed_secs: m.planned as i64 })
        }),
    decreases k,
{
    lemma_countdown(m, cfg, k);
    lemma_countdown(m, cfg, (m.remaining - 1) as nat);
}

proof fn lemma_countdown(m: PomodoroModel, cfg: Config, k: nat)
    requires
        m.state == RunState::Running,
        m.phase is Some,
        k < m.remaining,
    ensures
        ticks(m, cfg, k) == (PomodoroModel { remaining: m.remaining - k, ..m }),
    decreases k,
{
    if k > 0 {
        let m1 = m.tick(cfg).0;
        assert(m1 == (PomodoroModel { remaining: m.remaining - 1, ..m }));
        lemma_countdown(m1, cfg, (k - 1) as nat);
    }
}

/// Within a cycle, a long break follows the completed work session whose
/// count is a multiple of `sessions_before_long_break`, and every other work
/// session is followed by a short break; with the setting at 0 there is
/// never a long break. Breaks always lead back to work.
pub proof fn lemma_long_break_cadence(phase: Phase, count: int, per_long: int)
    ensures
        phase == Phase::Work ==> (next_phase(phase, count, per_long).0 == Phase::LongBreak
            <==> (per_long > 0 && (count + 1) % per_long == 0)),
        phase == Phase::Work ==> next_phase(phase, count, per_long).1 == count + 1,
        phase != Phase::Work ==> next_phase(phase, count, per_long) == (Phase::Work, count),
        (next_phase(phase, count, per_long).0 != Phase::Work) <==> phase == Phase::Work,
{
}

/// Stopping always returns to the initial idle state, from which `start`
/// always begins a fresh work phase with no sessions counted.
pub proof fn lemma_stop_then_start(m: PomodoroModel, cfg: Config)
    ensures
        m.stop().0 == (PomodoroModel { state: RunState::Idle, phase: None, remaining: 0, session_count: 0, planned: 0 }),
        m.stop().0.start(cfg).0.phase == Some(Phase::Work),
        m.stop().0.start(cfg).0.state == RunState::Running,
        m.stop().0.start(cfg).0.session_count == 0,
        m.stop().0.start(cfg).0.remaining == duration_secs(Phase::Work, cfg),
{
}

/// The idle timer `Pomodoro::new` builds.
pub open spec fn idle_model() -> PomodoroModel {
    PomodoroModel { state: RunState::Idle, phase: None, remaining: 0, session_count: 0, planned: 0 }
}

/// The timer just after `start` on a new timer.
pub open spec fn started(cfg: Config) -> PomodoroModel {
    idle_model().start(cfg).0
}

/// The transition the tick after `j` ticks from `m` reports.
pub open spec fn transition_at(m: PomodoroModel, cfg: Config, j: nat) -> Option<Transition> {
    ticks(m, cfg, j).tick(cfg).1
}

/// The tick after `j` ticks from `m` ends a work phase.
pub open spec fn leaves_work_at(m: PomodoroModel, cfg: Config, j: nat) -> bool {
    transition_at(m, cfg, j) matches Some(t) && t.old_phase == Some(Phase::Work)
}

/// How many of the first `n` ticks from `m` ended a work phase.
pub open spec fn work_exits(m: PomodoroModel, cfg: Config, n: nat) -> nat
    decreases n,
{
    if n == 0 {
        0
    } else {
        work_exits(m, cfg, (n - 1) as nat) + if leaves_work_at(m, cfg, (n - 1) as nat) {
            1nat
        } else {
            0nat
        }
    }
}

proof fn lemma_ticks_last(m: PomodoroModel, cfg: Config, n: nat)
    requires
        n > 0,
    ensures
        ticks(m, cfg, n) == ticks(m, cfg, (n - 1) as nat).tick(cfg).0,
    decreases n,
{
    assert(ticks(m, cfg, n) == ticks(m.tick(cfg).0, cfg, (n - 1) as nat));
    if n > 1 {
        lemma_ticks_last(m.tick(cfg).0, cfg, (n - 1) as nat);
        assert(ticks(m, cfg, (n - 1) as nat) == ticks(m.tick(cfg).0, cfg, (n - 2) as nat));
    } else {
        assert(ticks(m.tick(cfg).0, cfg, 0) == m.tick(cfg).0);
        assert(ticks(m, cfg, 0) == m);
    }
}

/// Over any run of ticks from a running timer, the timer keeps running with
/// a phase, and its session count goes up by exactly the number of work
/// phases completed.
pub proof fn lemma_run_counts_work_sessions(m: PomodoroModel, cfg: Config, n: nat)
    requires
        m.state == RunState::Running,
        m.phase is Some,
    ensures
        ticks(m, cfg, n).state == RunState::Running,
        ticks(m, cfg, n).phase is Some,
        ticks(m, cfg, n).session_count == m.session_count + work_exits(m, cfg, n),
    decreases n,
{
    if n > 0 {
        lemma_run_counts_work_sessions(m, cfg, (n - 1) as nat);
        lemma_ticks_last(m, cfg, n);
    }
}

/// The long-break cadence over a whole run: after `start`, only ticks. The
/// `n`-th time a work phase ends (`n` counting from 1) it is followed by a
/// long break exactly when `sessions_before_long_break` is positive and
/// divides `n`, and by a short break otherwise; every break ends in work.
pub proof fn lemma_run_long_break_cadence(cfg: Config, j: nat)
    ensures
        ({
            let k = cfg.sessions_before_long_break as int;
            let n = work_exits(started(cfg), cfg, j) as int + 1;
            match transition_at(started(cfg), cfg, j) {
                Some(t) => {
                    &&& t.old_phase == Some(Phase::Work) ==> t.new_phase == (if k > 0 && n % k == 0 {
                        Some(Phase::LongBreak)
                    } else {
                        Some(Phase::ShortBreak)
                    })
                    &&& t.old_phase != Some(Phase::Work) ==> t.new_phase == Some(Phase::Work)
                },
                None => true,
            }
        }),
{
    let m0 = started(cfg);
    lemma_run_counts_work_sessions(m0, cfg, j);
}

/// The shape every reachable timer has: idle exactly when it has no phase,
/// never a negative time left, and nothing left over once idle.
pub open spec fn timer_shape(m: PomodoroModel) -> bool {
    &&& (m.state == RunState::Idle <==> m.phase is None)
    &&& m.remaining >= 0
    &&& (m.phase is None ==> m.remaining == 0 && m.session_count == 0)
}

/// A new timer has that shape, and every timer operation keeps it.
pub proof fn lemma_timer_shape_is_kept(m: PomodoroModel, cfg: Config)
    requires
        timer_shape(m),
    ensures
        timer_shape(idle_model()),
        timer_shape(m.start(cfg).0),
        timer_shape(m.pause()),
        timer_shape(m.resume()),
        timer_shape(m.skip(cfg).0),
        timer_shape(m.stop().0),
        timer_shape(m.tick(cfg).0),
{
}

/// Pausing never changes what `stop` credits: a paused phase reports the
/// seconds it ran before the pause, exactly as if it had been stopped while
/// running, and resuming changes nothing either.
pub proof fn lemma_pause_keeps_stop_credit(m: PomodoroModel)
    ensures
        m.pause().stop().1 == m.stop().1,
        m.resume().stop().1 == m.stop().1,
{
}

/// A work phase begun by `start` and stopped after `k` one-second ticks
/// (fewer than its planned length) reports `k` seconds of work, whether it
/// was stopped while running or after a pause.
pub proof fn lemma_stop_credits_seconds_run(cfg: Config, k: nat)
    requires
        k < duration_secs(Phase::Work, cfg),
    ensures
        ticks(started(cfg), cfg, k).stop().1 == Some(
            Transition { old_phase: Some(Phase::Work), new_phase: None, old_phase_elapsed_secs: k as i64 },
        ),
        ticks(started(cfg), cfg, k).pause().stop().1 == Some(
            Transition { old_phase: Some(Phase::Work), new_phase: None, old_phase_elapsed_secs: k as i64 },
        ),
{
    let m0 = started(cfg);
    lemma_countdown(m0, cfg, k);
    let m = ticks(m0, cfg, k);
    assert(m.planned - max0(m.remaining) == k);
}

} // verus!
