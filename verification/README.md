# nap_alarm

An alarm clock that rings only into a connected bluetooth headset, as a Verus-verified
library with a thin program around it.

`src/` is the library. Its functions are verified; two items are trusted rather than
proved: the call into chrono that reads typed times (its contract states chrono's `%H:%M`
grammar) and the specification of `String::push`.

- `clock`: weekdays, times of day, and the local wall clock counted in minutes; reading
  `HH:MM` (strictly, for the file; through chrono, for typed input).
- `schedule`: when an alarm rings, its next ring, and the scheduler that rings each minute
  once however often it is polled and never rings a minute slept through.
- `config`, `config_file`: the alarms, the edits of the settings window, and the
  `alarms.toml` file, read and written; writing then reading gives the same configuration.
- `headset`: the `bluez_output.*` node in the output of `pw-dump`, and which due alarms
  ring or are skipped without a headset.
- `instance`: the decisions of the single-daemon claim on the pid file, with a model of two
  processes racing for it in which at most one becomes the daemon.
- `summary`, `tray`, `ring`: what the tray and the settings show, the bytes of the tray
  icon, and how ringing proceeds.
- `text`: characters, decimal numbers, white space.

`app/` is the program: the event loop and windows (Slint), the tray on D-Bus (ksni), the
file system, `pw-dump` and `pw-play`, and the floating-point drawing of the tray icon.
