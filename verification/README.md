# torchrust

Drop tracking for Torchlight Infinite game logs, as a verified library.

The game writes drop records into its log as blocks of pipe-prefixed lines of
`+`-separated keys, some with a bracketed value. The library finds those blocks,
parses each into a nested record, picks out the items that were picked up, and keeps
per-item tallies (since the last map entry and of all time) across log chunks.

- `src/` is the library, verified with Verus:
  - `text`, `order`: characters, trimming, splitting, searching; key order.
  - `value`, `numeral`: the scalars of the format and how bracketed text reads as
    one, including when a decimal numeral is too large for an `f64`.
  - `log_tree`, `log_parser`: the parsed record and the parser.
  - `counts`, `drop`: drop blocks, picked-up drops, tallies.
  - `process`: processing a chunk of log text against the previous state.
  - `log_path`, `log_watcher`, `config`, `json_merge`: the decisions of the log
    watcher and the server (which log to read, what to read next, settings, config
    updates).
- `app/` is the program around it: the HTTP server with its log watcher, and a
  stdin/stdout processor (`torchrust cli`). File and network I/O, the clock, and the
  income sums (floating point) live there.
- `tests/` exercises the library.
