# byo_redis

A small Redis-compatible server. The library in `src/` is verified with Verus;
the binary in `app/` does the networking.

- `frame.rs` — RESP frames: `Frame::check` (is a whole frame buffered?),
  `Frame::parse`, `Frame::encode`, and their display text. The specification
  functions `spec_check`, `spec_parse` and `encode` describe them over bytes.
- `frame_laws.rs` — a written frame is read back as itself (whatever follows
  it), a frame cut off before its end is incomplete, what `check` accepts it
  accepts whatever follows, a frame that `check` accepts is parsed unless an
  array in it has a negative count, and frames written one after another are
  read back in order however the bytes arrive.
- `cursor.rs`, `decimal.rs`, `text.rs`, `buffers.rs` — reading positions,
  decimal numerals, UTF-8 and ASCII helpers, and the `bytes` crate's buffers.
- `parse.rs`, `command/` — reading a command from a frame and what each command
  does to the store (`apply_spec`); `store_laws.rs` states what follows.
- `db.rs` — the store, a map from keys to values.
- `connection.rs` — the read buffer of a connection; `server.rs` — the
  decisions of the connection handler; `args.rs` — listen addresses.

`app/` holds the tokio server: accepting connections, reading and writing
sockets, and the task that owns the store.
