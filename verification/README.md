# structured_log_viewer

The logic of the MSBuild Structured Log Viewer's desktop front end, as a
Verus library: every function carries a contract over a mathematical model
and is proved against it.

- `msbuild` — the MSBuild XML lexer: per-byte syntax highlighting, the
  navigable tokens (`$(Prop)`, `@(Item)`, targets, imports, SDKs), the
  semantic index that joins tokens to a build's recorded import edges, and
  the notes for skipped imports.
- `model` — the engine's payloads the library reasons about, and byte counts
  as the viewer prints them.
- `tree`, `tree_view` — the build tree flattened to rows (children spliced
  in and folded away), its keyboard moves, its context menu, and the
  project a row belongs to.
- `files` — the source archive as a folder tree (single-folder chains
  folded, folders first, names in case-blind order), its filter, and the
  Find in Files rows.
- `line_paint` — how one source line is styled: highlight runs cut around
  an underlined token, find hits washed behind them, the pieces a line is
  laid out in.
- `inspector` — the selected node's facts, source label and full text.
- `search`, `source`, `timeline`, `favorites`, `styling`, `workspace`,
  `engine` — the decisions of the other panes: when a search runs and which
  reply counts, the source tabs, find, selection and quick info, the
  timeline's filters, the sidebar, the engine's errors.
- `demo`, `interop` — the computations of the rendering demo and the
  interop probe.

`app/` is a small terminal front end: it reads files, decodes the engine's
JSON, and holds what works in floating point (durations and the timeline's
layout).
