# macro

A terminal text editor with a file tree, tabs, syntax highlighting and
language-server completion. The editing core is written in Verus and
proved against specifications; the terminal, the file system, the
language-server processes and the event loop are ordinary Rust around it.

## Layout

- `src/` — the verified library (`macro_editor`):
  - `model.rs` — the editor's abstract state (`EditorModel`) and every
    editing operation as a function on it.
  - `editor.rs` — the line buffer (`Editor`), each method proved to act as
    its model operation and to keep the buffer well-formed.
  - `text.rs`, `words.rs`, `chars.rs`, `paths.rs` — strings as sequences of
    characters: lines, words, buffer word completions, ordering.
  - `completion.rs` — the completion popup: filtering, selection.
  - `file_tree.rs` — the file tree's rows, built from directory listings.
  - `highlight.rs` — incremental syntax highlighting over syntect.
  - `render.rs`, `screen.rs` — what the screen shows: styled runs of a
    line, popup and panel geometry, labels, the status bar.
  - `lsp.rs`, `wire.rs` — languages, servers, completion answers, message
    headers and bodies.
  - `app.rs` — the application's state machine: keys and clicks to the next
    state and the action the caller performs.
  - `laws.rs` — properties across operations (undo-like round trips, the
    close-file protocol, the tree's order, the popup's contents).
- `app/` — the program: arguments, terminal, drawing, files, language
  servers.
- `tests/` — tests of the library.
