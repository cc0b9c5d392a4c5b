# pisweep

Minesweeper rules, a deduction-only hint solver, best times and the command
line, written in Verus with their contracts proved.

- `src/board.rs`: the board: first-click-safe mine placement, flood-fill
  reveals, flags, chords, wins and losses.
- `src/solver.rs`: the hint solver (sentences, subset differences,
  remaining-mine counts) and the test board builder.
- `src/session.rs`: a game in its window: the clock, the hint line and the
  stored settings, with what the window does after each move.
- `src/describe.rs`: what each square shows and how it is announced.
- `src/stats.rs`, `src/cli.rs`, `src/icons.rs`: best times, arguments, icon
  paths.
- `src/counting.rs`, `src/text.rs`: counting lemmas and verified number
  formatting.
- `app/`: the GPUI Kit window, the settings file and the embedded icons.
