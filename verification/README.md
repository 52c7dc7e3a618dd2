# timewarp

Runs a command under virtual wall-clock time. A preloaded shim replaces the
C library's clock, sleep and timer functions; the front end writes the warp
state (offset and speed) to a file that the shim reads on every call.

Layout:

- `src/` — the verified library (Verus):
  - `duration.rs` — duration texts such as `+1h15m`: parsing, canonical
    rendering, and the proof that a rendered duration reads back unchanged;
  - `clock.rs` — `timespec`/`timeval` conversions and which clocks are warped;
  - `state.rs` — the state file's text, environment switches, preload list;
  - `step.rs` — the interactive step controller (Enter, arrows, `q`);
  - `probe.rs` — the probe helper's report, reading it back, and judging
    the shift;
  - `launch.rs` — the starting offset (`--at` / `--offset`) and exit status;
  - `hook.rs` — the re-entrancy guard of the interposed calls;
  - `text.rs` — characters, whitespace trimming and decimal numerals.
- `app/` — the command-line front end and the shim (I/O, raw pointers,
  floating-point speed scaling), built on the library. Invoked under the
  name `now` (a link beside the front end), the program is the probe helper
  that prints its clock readings.
- `tests/` — tests of the library on concrete values.
