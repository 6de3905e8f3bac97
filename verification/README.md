# rkv

An append-only, content-addressed key-value store that speaks a subset of the
Redis protocol: `SET <key> <value>` stores the value and answers with the
lowercase hexadecimal SHA-256 digest of the value; `GET <digest>` answers with
the stored value; `PING` answers `PONG`.

Layout:

- `src/` — the library, verified with Verus:
  - `codec.rs`: hexadecimal and decimal text, with their round-trip laws;
  - `server/request.rs`: the request grammar and its decoder, with the laws that
    a request written by a client decodes to its arguments and that decoding
    never runs ahead of the bytes received;
  - `server/mod.rs`: the replies, and what a session does with a decoded request;
  - `storage/data.rs`: the record format of the data file;
  - `storage/index.rs`: the index from digest to record;
  - `storage/mod.rs`: the store, with the laws that a value set is read back by
    the key that was answered, also after the index file is reloaded. Both hold
    where the record's offset is the end of the data file and the value is
    shorter than 4 GiB (its length field has 32 bits). The server takes the offset
    from the data file's cursor; after a `GET` has moved the cursor, the next `SET`
    records the cursor and not the end of the file.
- `app/main.rs` — the server program: files, sockets and command-line options.
- `tests/` — tests of the library.
