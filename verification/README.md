# agent_replay_trace

Load and step through JSONL agent traces: filter events by key/value pairs,
count them by kind, pluck and deduplicate field values, locate matches, and
walk the trace one event at a time with a cursor.

The library in `src/` is written in Verus. Its functions carry contracts that
Verus proves, except for the few that call serde_json or stand for a std type,
whose contracts are trusted: `text.rs::json_string_literal` (serde_json's
string escaping), `jsonl.rs::parse_line` with its converter `library_value`
(serde_json's parser), and the declarations of the outside types
`std::io::Error` and `serde_json::Value`. The modules:

- `json.rs` — the JSON value held as plain data (`JsonValue`), its model
  (`JsonView`), member lookup and JSON equality.
- `text.rs` — the compact JSON text of a value and the order of texts.
- `replay.rs` — `Replay`: access, slicing, filtering, counting, locating,
  plucking, distinct values.
- `counts.rs` — `KindCounts`, the counts grouped by label that `by_kind` returns.
- `debugger.rs` — `Debugger`, the step-through cursor.
- `jsonl.rs` — loading a trace line by line: blank lines, parsing each line
  with serde_json, decode errors and their line numbers.
- `laws.rs` — properties that relate the operations to each other.

`app/` holds what is not verified: reading files, converting values that
callers already hold as `serde_json::Value`, the floating-point duration of a
trace, and `Display` for errors.
