# agent_browser_wasm

The command engine of a browser-hosted agent-browser adapter: it reads a
command line, decides what runs, talks to the page over the Chrome DevTools
Protocol through a transport function supplied by JavaScript, and prints the
reply. The decisions are a verified library; the I/O around them is plain Rust.

## Layout

- `src/` — the library, verified with Verus.
  - `text.rs`: character-level helpers (trimming, lines, decimal numbers,
    searching) with their specifications.
  - `json.rs`: a JSON value model, member lookup, and JSON string quoting.
  - `snapshot_format.rs`: the accessibility tree turned into the indented
    text snapshot, with element refs (`e1`, `e2`, ...), compaction, and the
    check that rendering a tree ends.
  - `runtime.rs`: flags, help text, command-line steps, ref storage and
    lookup, reply formatting, mouse-button state, and the page scripts that
    commands send.
  - `wasm_support.rs`: request ids.
- `tests/` — tests of the library on concrete values.
- `app/` — the WebAssembly bindings, the CDP client, and the asynchronous
  command loop that calls the library.
