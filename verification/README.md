# simple_redis

A small Redis-style server: the RESP wire format (reading and writing frames), a
store of plain keys and hash keys, and the `GET`, `SET`, `HGET`, `HGETALL` and
`HSET` commands, verified with Verus.

- `src/resp/`: the frames (`frame.rs`), how they are written (`encode.rs`), the
  building blocks of reading (`decode.rs`), the readers (`parse.rs`), the ordered
  map frame (`map.rs`), the `{:?}` text of a frame (`debug.rs`), and what holds of
  writing and reading together (`laws.rs`).
- `src/text.rs`: decimal numbers, UTF-8 text and the float syntax.
- `src/buffer.rs`: the `bytes::BytesMut` buffer the readers consume.
- `src/backend/`: the store, kept in `dashmap::DashMap` tables.
- `src/cmd/`: checking a request array and running the commands.
- `src/network.rs`: the codec of a connection.
- `app/`: the TCP server (tokio), the error types with `Display`, and doubles as
  `f64`.
