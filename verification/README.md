# bibbo

The logic of a desktop knowledge-graph notebook, verified with Verus.

- `src/calendar.rs` — proleptic Gregorian day numbers, the civil date of a
  Unix time, and its "Month day, year" text.
- `src/text.rs` — Unicode white space, trimming, words, the normalised key
  under which titles and links are compared, and `[[link]]` extraction.
- `src/graph.rs` — edges between notes from their links.
- `src/editor.rs` — the board's notes, palette cursor and writing overlay as
  a state machine, with the laws its actions keep.
- `src/layout.rs` — the integer hashes behind note placement.

`app/` holds the window, drawing, physics and SQLite storage around the
library (`bibbo seed` rebuilds the database with sample notes).
