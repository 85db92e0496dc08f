# simple_kv

A small key-value server, with its logic verified by Verus.

The server speaks RESP (`GET`, `SET`, `MGET`, `MSET`, `DEL`, `GETALL`,
`EXPIRE`, `EXPIREAT`), keeps its data in a Robin Hood hash map, logs every
write to an append-only file and replays that file on start. A second, older
server speaks a line protocol (`Put`, `Get`, `Del` with length-prefixed
fields).

## Layout

`src/` is the verified library:

- `key_store`, `kv_store`: the Robin Hood hash maps, specified as maps from
  byte strings to values; `hashers` holds hashers with a plain layout.
- `request`, `response`: the RESP codecs, as incremental decoders with exact
  outcomes over the bytes received so far, and their encoders.
- `command`: commands, their parsing from requests, their wire form, and their
  effect on the store and their replies, expiry included.
- `restore`: rebuilding the store from the append-only log.
- `kv_request`, `kv_response`, `kv_session`, `slice_reader`: the line protocol,
  the framing of its requests, and running them on a `KvStore`.
- `wire_format`: the older line format of operations.
- `config`: the settings, checked from the values the environment gives.
- `text`, `util`: decimal text, UTF-8 and CRLF helpers.

Laws that relate several functions are public proof functions named
`lemma_*`: round trips of every format, a read after a write, replaying a
log, and decoding that does not depend on how the bytes arrive
(`lemma_chunking` for RESP requests, `lemma_kv_command_stable` for the line
protocol).

Both stores hash keys with SipHash under fixed keys (`DefaultKeyHasher`,
through `std::collections::hash_map::DefaultHasher::new`), so a store's bucket
layout is the same in every run and on every machine. The price is that the
stores do not resist hash flooding: a client that knows the hash can choose
keys that collide.

`app/` is the program around it: reading the environment, sockets, the tokio
runtime, the append-only file, and logging.

`tests/` exercises the library on concrete values.
