# sito

A local always-on Nix substituter proxy: Nix is pointed at one localhost
endpoint, and every narinfo or NAR request goes to the best reachable upstream
binary cache.

The decisions are a library verified with Verus; the threads, sockets and files
around them are ordinary Rust.

- `src/` — the library: configuration (`config`), what is known of the upstreams
  (`state`, `measure`), the fetch plan (`select`), probing (`probe`), one
  upstream call (`fetch`), the HTTP surface (`proxy`, `narinfo`), the accept loop
  and transfers (`serve`), text handling (`text`), and what holds across all of
  these (`laws`).
- `app/` — the program: arguments, TOML and JSON, the listener, the HTTP client,
  the probe thread, and the floating-point averages.
- `tests/` — the library run on concrete values.
