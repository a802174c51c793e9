# xtable

A verified core for a single-node structured data service on top of an
S3-compatible object store: multi-record transactions with snapshot reads and
Serializable Snapshot Isolation, a write-ahead log with crash recovery,
memtables that are flushed into compressed chunk files, and a cold rebuild from
those chunks.

The library in `src/` is written in Verus. Every operation of the store, the
lock manager, the memtables and the coordinator is specified as a function from
state to state on a mathematical view (`StoreView`, `LocksView`,
`MemTableSetView`, `CoordView`), and proved to implement it. What holds of the
operations together is stated as public proof functions named `law_*`:

- `version_chain`, `store_laws`: chains, snapshots, garbage collection, the log;
- `cahill`, `si_lock_manager`: dangerous structures and their detection;
- `txn_laws`, `commit_laws`: what begin, read, stage, commit and abort keep;
- `skew_laws`: of a write skew one side commits;
- `chunk`, `flush`, `read_laws`: what is written to a chunk is read back;
- `recovery`, `gc`, `rebuild`, `restore_laws`: restart, sweeps, lost stores;
- `telemetry`, `metrics`: when telemetry is on, and the names of instruments.

Calls into other crates stand in `src/outside.rs`, each with the contract that
the proofs rely on.

`app/` is ordinary Rust around the library: redb persistence and row encodings,
spill files, uploads and fetches, background tasks, HTTP attributes and
OpenTelemetry. `tests/` runs the library.
