# zenoh-hammer (verified core)

The logic of the Zenoh Hammer desktop tool, written in Verus and proved
against its contracts:

- `src/page_admin.rs` — admin-space queries: decoding of reply payloads
  (gzip, UTF-8 text, JSON, CDR strings, hex preview), the reply bookkeeping
  and the stable sort of results by key.
- `src/page_liveliness.rs` — liveliness tokens, the liveliness subscription,
  the bounded event log and the `HH:MM:SS.mmm` time format.
- `src/page_session.rs` — session config files (TOML/JSON5): parsing, saving
  and loading steps, the file list, and the saved app state (which loads back
  to itself).
- `src/nesting.rs` — how deeply a JSON5 text nests (strings and comments
  read as JSON5 reads them); deeper than 128 levels is refused before parsing.
- `src/task_zenoh.rs` — what the session task holds open (subscribers,
  tokens, liveliness subscribers) and its answers, including the shutdown.
- `src/text.rs`, `src/json.rs` — trimming, searching, decimal/hex text, and
  the JSON values that are carried through.

`app/` holds the egui drawing, the native file dialogs and the async zenoh
task, which call the library. `tests/` runs the library on concrete values.
