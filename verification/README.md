# redis_lite

A small Redis-compatible key-value server (RESP protocol; `PING`, `GET`,
`SET key value [EX seconds | PX milliseconds]`, `DEL`, `EXISTS`; expiring
keys; snapshots plus an append-only log of writes), whose logic is a library
verified with Verus.

- `src/` is the verified library:
  - `decimal`: decimal integers as `str::parse` reads and `Display` writes them;
  - `text`: byte ranges, UTF-8 decoding, ASCII strings;
  - `protocol`: RESP values, reading them from bytes (`wire`), writing them
    (`encode`), turning them into commands (`command`), and the laws that tie
    reading to writing (`laws`);
  - `storage`: the store, a `DashMap` of keys to values with expiry times;
  - `server`: running commands and serving one frame of a client's bytes;
  - `session`: serving every whole frame of a client's buffer after a read,
    and the law that a client's bytes are served the same however they are
    split into reads;
  - `persistence`: snapshots and the replay of the write log.
- `app/` is the program around it: the Tokio TCP server, the files (bincode
  snapshots, the append-only log), the timers, and shutdown.
- `tests/` runs the library on concrete inputs.

The store is a plain value: `Store` is not `Clone`, and its writes take
`&mut self`, so that its contract can say what each call does to its
contents. Connections therefore share one store behind a single `Mutex` in
`app/`, held while a client's buffer is served; the `DashMap` inside is not
used for concurrent access from several threads.
