# pg_resp

A Redis-protocol (RESP2) cache meant to run inside a PostgreSQL background
worker, with its logic written and proved in Verus.

## Layout

- `src/` — the verified library.
  - `bytes`, `decimal`, `lines`, `text`: byte and text helpers, decimal
    integers both ways, CRLF line framing.
  - `reply`, `command`: the wire protocol — replies and commands, parsed
    and encoded, with round-trip and framing laws.
  - `glob`: Redis-style glob matching against a specification of matching.
  - `clock`, `store`, `scan`: the keyspace with TTLs, a byte budget and
    eviction, hit/miss counters, and snapshot cursors for `SCAN`.
  - `dispatch`: one command in, one reply out, over the store and the
    connection's authentication state.
  - `client`: the loopback client's decisions (error classes, retries,
    probes, authentication).
  - `sql`: the SQL side — the per-transaction commit queue, the commands it
    sends, and how replies read back as SQL values.
  - `server`: the event loop's decisions (one buffered command at a time,
    write back-pressure, flushes, the watchdog).
- `tests/` — tests of the library, run against the compiled crate.
- `app/` — the PostgreSQL extension and server around the library: the
  background worker, sockets and the event loop, the SQL functions, and the
  TCP client. It is ordinary Rust and calls the library for every decision.
