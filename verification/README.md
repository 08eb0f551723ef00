# raptor

An in-memory key-value store with strings, integers (counters), hashes,
lists, sets, sorted sets and arrays under byte-string keys, per-key expiry,
and least-recently-used eviction under an optional memory limit. The store
is written in Verus: every command carries a contract that states, over a
mathematical model of the store (`model.rs`), what it returns and what it
leaves behind.

Layout:

- `src/` — the verified library.
  - `model.rs`: the model (a map from keys to records) and the meaning of
    every command on it, including eviction; `laws.rs`: properties across
    commands, proved; `held_values.rs`: every command keeps held values
    well-formed.
  - `wellformed.rs`: what a well-formed value is (hash fields, set members
    and sorted-set members each once, sorted sets in score order), and the
    normal form that values given whole are stored in.
  - `store.rs`: the store itself (entries with distinct keys and
    well-formed values, kept as a type invariant; lookup, lazy expiry,
    eviction by last use); `cmd_*.rs`: the commands, one file per kind of
    value; `snapshot.rs`: listing and restoring all entries.
  - `hash.rs`, `list.rs`, `members.rs`, `zset.rs`, `array.rs`, `pairs.rs`,
    `range.rs`, `bytes.rs`, `value.rs`: the operations on each kind of value.
- `tests/` — tests of the library on concrete values.
- `app/` — configuration from the environment, the clock, JSON snapshots on
  disk, the audit log, and the process harness for end-to-end runs.

Eviction ranks keys by last use alone and runs right after each write; the
weighted, periodically scheduled scoring of the `SMART_LRU_*` settings works
in floating point and is not part of the verified library.

Times are milliseconds passed in by the caller; sorted-set scores are passed
as the IEEE-754 bit pattern of an `f64` and ordered as `f64::total_cmp` orders
them.
