# app_m

The back end of a desktop process manager: it keeps a list of applications
(shell commands or built-in static file servers), starts and stops them,
follows their output and resource use, restarts them when they exit or when
watched files change, and offers a few tools (hosts file, port and process
lookup).

## Layout

- `src/` — the library, written in Verus and verified:
  - `models.rs` — the records kept about each application;
  - `keyed.rs` — a map keyed by strings, over a vector;
  - `registry.rs` — the applications, their log buffers and list positions,
    and every change a request makes to them;
  - `lifecycle.rs` — batch starts and stops, sampling rounds, automatic
    restarts and watched directories;
  - `logs.rs`, `monitor.rs` — capped log buffers and the resource history;
  - `static_server.rs` — request routing, path decoding and confinement,
    byte ranges, content types and proxy addresses of the file server;
  - `hosts.rs`, `tools.rs`, `process.rs` — hosts file, `netstat` lines,
    process search, launching and locating processes;
  - `text.rs` — the text functions the rest is built on;
  - `laws.rs` — properties that relate several operations.
- `tests/` — tests of the library on concrete values.
- `app/` — the parts that talk to the operating system and the network:
  child processes, the HTTP/WebSocket server, file watching, the data file,
  and the operations offered to the front end.
