# bearclaw_proxy

The storage and protocol core of the Bearclaw intercepting proxy, written in
Verus. Every function in `src/` carries a contract that Verus proves, except
five small trusted wrappers around BLAKE3, zstd, `i64::from_ne_bytes` and
`String::from_utf8`, whose contracts restate what those libraries document.

- `src/scenario.rs`, `src/tree.rs`, `src/positions.rs`, `src/table.rs`: the
  methodology tree. `ScenarioTable` holds one row per scenario and keeps, as
  its invariant, unique ids and user-defined ids, siblings numbered 1..n,
  no cycles and a bounded depth; creating, moving, updating and deleting
  scenarios preserve it, and each operation states exactly when it fails.
- `src/history.rs`, `src/content.rs`: how an HTTP exchange is cut into
  deduplicated, compressed pieces (BLAKE3 keys, zstd level 22) and put back
  together; loading what was stored gives the same message back (decoding a
  piece the compressor produced is taken from zstd's contract to succeed).
- `src/bootstrap.rs`: the big-endian framing spoken with the bootstrap proxy.
- `src/command.rs`: one step of the storage service: a scenario command
  applied to the table, with the reply and which subscribers to tell.
- `src/quota.rs`, `src/rpc.rs`: per-connection object limits and the replies
  a client gets for each storage outcome.
- `src/project.rs`: recognising a project file by its header.

`app/` is the program around the library: the SQLite project file, the
storage thread, TCP connections to the bootstrap proxy, and the command line.
It is ordinary Rust and is not verified.
