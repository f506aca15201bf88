# storage

A page-oriented storage engine core, written in Verus: every function in
`src/` carries a contract that the verifier proves.

## Layout

- `src/block_device.rs`, `src/devices.rs`: the `BlockDevice` trait, an
  in-memory device, a device written through to a file, and wrappers that
  count reads or inject faults (refused writes, torn sectors, writes that
  only land on sync).
- `src/page.rs`, `src/crc.rs`, `src/codec.rs`: checksummed 4 KiB pages and
  the byte codecs they use.
- `src/disk.rs`: the database file: a header page, page allocation, page
  reads and writes.
- `src/dwb.rs`: the double-write buffer that protects a flush batch against
  torn page writes.
- `src/wal.rs`, `src/segment.rs`, `src/log_manager.rs`: the write-ahead log:
  the record codec, log segments, appends, flushes, rolling and truncation.
- `src/replacer.rs`, `src/buffer.rs`, `src/pool.rs`: the LRU-K replacer and
  the buffer pool (write-ahead rule, double-written flushes, eviction, and
  a pool that refuses further work once an eviction failed to write).
- `src/heap.rs`, `src/table_heap.rs`: slotted heap pages and table heaps.
- `src/btree.rs`, `src/btree_index.rs`: B+tree nodes and the index over
  them (insert with splits, lookups, range scans, a structural check).
- `src/recovery.rs`: double-write restore and ARIES-style recovery
  (analysis, redo, undo with compensation records).
- `src/txn/`: transactions: the lock manager, MVCC version chains, the
  transaction manager and checkpoints.
- `app/`: what runs around the library: the files on disk behind the
  write-through devices, blocking locks, logging, and error types with
  `Display`.
- `tests/`: the test suite, run against the compiled library.

## Contracts in brief

The contracts are stated over views: a device's contents as a byte
sequence, the log as a `LogView`, the pool's frames and page table, and so
on. Operations that read or write through a `BlockDevice` promise what the
file holds when they succeed; whether the device succeeds is up to the
device. Recovery, for instance, is specified as the analysis of the log's
records, a redo trail over the records from the oldest dirty page, and one
undo trail per uncommitted transaction, each with its compensation records.
