# pawpause-applet

A Pomodoro timer for the COSMIC desktop, with a break overlay, a task
manager and focus statistics. The library in `src/` holds the logic and is
verified with Verus; `app/` is the thin program around it (files, processes,
notifications, the overlay's mpv process).

Layout of `src/`:

- `pomodoro` — the timer state machine, with its abstract model and laws
  (pause/resume, stop/start, the long-break cadence, phase lengths).
- `applet` — what each panel button and tick does, and what a phase change
  sets off.
- `tasks`, `task_view` — the task forest and projects; deleting subtrees,
  roll-up progress, the visible rows and the editing messages.
- `stats`, `dashboard` — statistics over the session log and the texts and
  scales of the statistics page.
- `laptop_usage` — uptime per day from `last reboot` output.
- `overlay`, `wallpaper_blur`, `outputs`, `ansi` — inputs for mpv, the
  `cosmic-bg` config rewrite, output names, ANSI stripping.
- `config`, `dates`, `text` — configuration defaults and paths, calendar
  dates as chrono day numbers, character-level helpers.

Dates are held as day numbers (chrono's `num_days_from_ce`).
