# review-everything (`re`)

An interactive side-by-side diff viewer for git, built on difftastic, whose
core is verified with Verus.

- `src/` — the verified library: the text helpers, paths compared by
  component (`paths`), the diff data model
  (`types`, `difft`, `git`), the post-diff integrity checks, the diff
  pipeline's decisions (`pipeline`), reading difftastic's JSON report
  (`report`), building display files from it (`processor`, `hunks`), hunk and file navigation
  (`nav`), key bindings (`input`), the file tree (`tree`), review marks
  (`review`), what the panes show, cell by cell (`display`), and the application state
  machine (`app`), whose handlers return the outside work to do as an
  `Effect`.
- `app/` — the program around it: command line, terminal drawing, git and
  difftastic processes, worker threads, the review-mark file, and the event
  loop that carries out the effects.
- `tests/` — tests of the library on concrete values.
