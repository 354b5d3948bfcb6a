# kevlar

A small log-structured key-value store, verified with Verus.

Every write is appended to a log of entries (a 28-byte little-endian header,
then the key, then the value); an in-memory table maps each key to the
position of its latest value in the log.  Opening a store replays the log to
rebuild the table.

- `src/internal/log.rs`: entry headers, the log image and its cursor.
- `src/internal/table.rs`: the key table.
- `src/internal/db.rs`: a store that logs each put and delete as one entry.
- `src/internal/server.rs`: a store that logs transactions, closed by a
  commit record; replay applies a transaction only at its commit record.
- `src/internal/db_laws.rs`, `src/internal/server_laws.rs`: proofs that reads
  give back writes and that replaying the log recovers committed writes.
- `src/server.rs`: the public store with byte and string keys.
- `src/config.rs`: the daemon's port setting.
- `app/main.rs`: the daemon, which keeps the log in `kevlar.log`.
