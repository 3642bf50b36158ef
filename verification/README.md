# csvfastview

A viewer for very large CSV files. It keeps the byte offset of every record
instead of the table, reads records back on demand, guesses how a file is
written, filters rows by column values, and keeps a small cache of the rows
on screen.

## Layout

- `src/` — the library, verified with Verus. Every function states what it
  returns in `requires`/`ensures`, over the mathematical models in its module.
  - `scan`, `index`, `query`, `unique`, `export`: reading records through the
    `csv` crate, the offset index, filtering, per-column value indexes and the
    records an export writes.
  - `config`, `sniff`, `text`, `matching`: settings, decoding through
    `encoding_rs`, guessing separator/header/encoding, text order and search.
  - `rows`, `selection`, `filters`, `logical`: row sets as sorted lists and
    the algebra that combines column filters into the rows shown.
  - `viewer`, `row_cache`, `requests`, `message`: the viewer's cached cells
    and row requests, the worker's row cache and job queue, and the messages
    between the two.
  - `session`: the viewer's state of an open file (row counts while the
    file is previewed and then indexed in the background, page, filtering,
    value lists) and what each report of the worker does to it.
  - `external`: the trusted calls into `csv`, `encoding_rs` and std routines
    that Verus cannot read, each with its contract.
- `tests/` — tests of the library on concrete inputs.
- `app/` — the desktop program (eframe/egui window, worker threads, file
  reading and writing) and a `--bench` mode; it draws, moves messages, writes
  the status line from what the library reports, and lays out column
  widths. It reads the whole file into memory before indexing it, so the
  memory it needs grows with the file.
