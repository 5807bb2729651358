# mm — Mischief Managed

A desktop toggle for macOS: each run of `mm` either hides every visible
application or brings back the ones the previous run hid.

- `src/` is the library, verified with Verus: the toggle mode, the groups of
  process ids kept between runs, the decisions of a Hide run and of a Show
  run (which applications to hide or unhide and how the saved groups change),
  the on-screen windows and the window order kept in an `indexmap::IndexSet`.
  `toggle::lemma_show_undoes_hide` proves that a Show run unhides exactly what
  the Hide run before it hid.
- `app/` is the program: it asks the workspace and the window server for the
  running applications and windows (Cocoa, Core Graphics), carries out the
  requests, and reads and writes the state file `data.json` with serde.
