# fun_kv

A key-value store with an optional backing file, written in Verus.

`src/` is the verified library:

- `kv/store` — the store: records indexed by key in an `scc::HashMap` and a
  `crossbeam_skiplist::SkipMap`, writes with timestamps and a memory limit,
  reads through the cache or from disk, the write batches of the write buffer
  (`begin_write_batch` / `finish_write_batch`), recovery from the sectors of the
  backing file (`recovery`), setting up a backing file (`persistence`) and the
  expiry sweeper's sampling (`ttl`).
- `kv/cache` — the CLOCK read cache; `kv/record` — records and their sizes;
  `kv/builder` — the builder.
- `storage` — the free-space map, the record format, the metadata block, the
  write-buffer shards and flush decisions, and block images.
- `stats`, `error`, `utils` (MurmurHash3), `constants`.
- `laws` — properties that span several operations.

`app/` holds what touches the machine: file and io_uring I/O, the write-buffer
and sweeper threads, and the types that need outside derives.
