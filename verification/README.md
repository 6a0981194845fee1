# codescout (verified core)

The logic of the codescout tool server, written in Verus and proved against
its contracts:

- `util` — the string model (`split`, `lines`, `join`, `trim`, …) with
  verified executable versions, text extraction under a byte budget, and a
  small string-keyed map.
- `tools` — heading resolution, heading-addressed section edits, scoped
  replacements, batch edits, the Markdown tools' parameter checks, and
  per-session section coverage.
- `memory` — filtering a Markdown memory file to requested `###` sections.
- `lsp::mux` — request-id tagging for multiplexed clients and the shared
  document state (first opener / last closer, monotonic versions).
- `platform::windows` — command-line tokenizing and launcher names.
- `embed` — chunk sizes per embedding model and backend selection.
- `logging` — log rotation plans, diagnostic-log pruning, instance ids.
- `usage` — classification of finished tool calls.
- `config` — operational modes and contexts.

Each module states its laws as public proof functions (`law_*`).

`app/` holds what is not verified: file-system and process access, the
usage database (rusqlite), the tracing setup, serde forms of the library's
types, and JSON conversions.
