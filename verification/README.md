# gdcli

A command line for Godot's built-in language server and for the gdapi
editor plugin's HTTP API, with its logic written and proved in Verus.

- `src/` — the verified library (crate `gdcli`):
  - `symbol_path`, `target`, `project`: symbol paths (`file:Class.member`),
    command-line targets (1-based `file:line:col`), the file a command acts
    on, and the project root lookup.
  - `frame`, `rpc`, `lsp_params`, `resolve`, `lsp_output`, `types`: LSP
    framing (`Content-Length`), JSON-RPC messages, request parameters,
    symbol-path resolution with suggestions (`similar`), and what each
    command prints; file URIs.
  - `http`, `queue`, `server`: the gdapi HTTP server's request parsing,
    response writing, waiting-request bookkeeping and per-connection
    decisions.
  - `exec`, `format`, `normalize`, `clap_style`, `meta`, `install`: the
    `exec` command's request body, URL, exit codes and output rendering
    (TOON, clap-style help), and the `install` command's text edits.
  - `json`, `text`: the JSON model used in contracts, and text helpers.
- `tests/` — tests of the library.
- `app/` — the program: argument parsing, terminal, file and network I/O,
  the async LSP client and the server runtime, calling the library for
  every decision.
