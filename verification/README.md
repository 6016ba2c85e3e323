# durablestore

A single-writer embedded byte key/value store whose log is a file header
followed by length-delimited, CRC-32-checked records. The library is written
in Verus and proved against its contracts; the program in `app/` owns the
files, the lock and the command line.

- `src/format.rs` — CRC-32, the file header, record encoding, and log
  recovery (`scan`), each with a specification of the bytes.
- `src/index.rs` — the ordered map of live entries (a vector sorted by key).
- `src/store.rs` — the store's state and decisions: each mutation returns the
  bytes to persist and takes effect when the caller acknowledges them.
- `src/recovery.rs` — proofs that appended records are recovered, torn appends
  are discarded without loss, and compacted logs recover the same entries.
- `src/cli.rs` — hex arguments, JSON text and command-line parsing.
- `app/main.rs` — file I/O, locking, synchronization and `main`.
