# concurrent_hash_table

An employee-salary table with separate chaining, keyed by Jenkins' one-at-a-time hash
of each name, driven by a file of prioritised commands and keeping a console log and a
log file. The table, the hash, the command language, the logs and their ordering are
verified with Verus in `src/`; `app/` reads `commands.txt`, runs one thread per command
in order of priority, reads the clock, and prints and writes the logs.

- `src/hashing.rs` — the hash, against its definition over UTF-8 bytes.
- `src/map.rs` — the table, its invariant, its operations and their laws.
- `src/commands.rs`, `src/line.rs` — reading command lines and files.
- `src/logging.rs`, `src/text.rs`, `src/sort.rs`, `src/listing.rs` — log messages,
  decimal text, stable sorting, and listings in order of hash.
- `src/primes.rs` — the bucket count: the first prime above twice the inserts.
