# worklog

A small work log kept as markdown (`## Week N`, date lines such as
`Mar 9, 2026`, `* item` bullets) and served as a web page backed by SQLite.

- `src/` is the verified library (Verus):
  - `text` — whitespace trimming, prefix search, line splitting, decimals;
  - `date` — calendar dates, with chrono's parsing, formatting and ISO weeks
    behind trusted wrappers;
  - `parser` — reading the markdown, specified as a state machine over lines;
  - `writer` — writing it back, with the proof (`roundtrip`) that reading
    what was written gives the worklog back;
  - `group` — grouping stored rows by ISO week and day;
  - `db` — decoding stored rows, planning an idempotent import, export;
  - `web` — HTML escaping, the pages, markdown items (comrak behind a
    trusted wrapper).
- `app/` is the server around it: axum routes, the SQLite queries, start-up
  import of existing markdown files.
- `tests/` exercises the library through its public functions.
