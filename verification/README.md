# oc_sessions

Search and list recorded coding-assistant sessions.

- `src/` is the verified library:
  - `session.rs`: the session records.
  - `sorting.rs`: stable insertion sorts with their specification and the
    laws of stable sorting (sorted, a permutation, ties keep their order).
  - `fuzzy.rs`: fuzzy scoring of sessions through skim's matcher, and ranking
    best match first.
  - `cli.rs`: what the command line lists: queries applied in turn, ordering
    by date, title or directory, and the limit.
  - `search.rs`: the interactive search language (`title:`, `mes:`, `dir:`).
  - `app.rs`: the state machine of the interactive picker.
  - `display.rs`: dates, shortened paths and the aligned text table.
  - `db.rs`: the SQL that selects the sessions.
  - `text.rs`: text helpers.
- `app/` is the program around it: argument parsing, the SQLite database,
  printing, and the terminal front end.
- `tests/` runs the library on concrete values.
