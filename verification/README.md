# pumpkin_tui

The text-side logic of a full-screen server console, verified with Verus.

- `src/` — the verified library: a UTF-8 line editor (`input`), command
  history (`history`), completion over a command tree (`completion`), word
  wrapping and match finding (`wrap`), pane geometry (`layout`), the glue that
  cleans log text and answers dispatcher completions (`console`), and the
  console's key-driven state machine (`app`). Character-level helpers live in
  `text`; display widths come from the `unicode-width` crate through `width`.
  Public `law_*` proof functions state what holds across calls.
- `app/` — the terminal around it: the run loop, drawing with `ratatui`, the
  channel between server and console, and the server-side logging layer,
  command loop and status feed.
- `tests/` — executable tests of the library.
