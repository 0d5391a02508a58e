# marker

The verified core of Marker, a screen-annotation tray app (Tauri). `src/` is
a Verus library; `app/` is the Tauri program around it (windows, tray, OS
queries, file and dialog I/O), which Verus does not see.

- `timeline` — the global undo timeline across overlay windows: commit, undo,
  redo, global clear (fold every active op into one), reset, with the
  invariant every operation keeps and the undo/redo laws.
- `overlay_windows` — monitor specs, topology diffs, label assignment for an
  activation, window labels and their order, and the label → monitor
  registry.
- `overlay` — drawing-session decisions and the toolbar dock position.
- `commands` — shortcut validation, save outcomes, the URL allowlist, replay
  targets.
- `annotation_file` — payload check, save-file names, load modes.
- `i18n`, `shell`, `monitor` — locale choice and string tables, tray and
  launch-argument decisions, integer geometry.
- `text`, `stable_sort` — character and ordering helpers.
