# rlap

A slot-addressed in-memory key-value store, verified with Verus.

- `src/decimal.rs` — decimal text of integers and the integer parsers.
- `src/protocol.rs` — binary opcodes and RESP values: encoding, parsing, and
  the proof that parsing reads back the encoding of every value whose
  simple strings and errors hold no `\r\n`.
- `src/value.rs` — stored values (integers, strings, lists, hashes) and their
  content model.
- `src/store.rs` — the store: a hot zone in an `aligned_vec::AVec`, a cold
  zone, lazy expiry, promotion of frequently read cold slots, and the laws of
  its operations.
- `src/server.rs` — key hashing, the RESP commands, binary frames and
  append-only log replay, each as a step from store and request to store and
  answer.
- `app/main.rs` — the TCP server: sockets, the log file, the lock around the
  store.
