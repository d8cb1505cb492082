# mini_lsm

A log-structured merge-tree storage library whose core is verified with Verus: blocks,
sorted string tables (SSTs), the iterators over them, the compaction policies, and the
state changes of the engine (freeze, flush, full compaction) together with its read path
over the tables.

## Layout

- `src/key.rs`: byte-string keys and their lexicographic order.
- `src/block.rs`, `src/block_builder.rs`, `src/block_iterator.rs`: the block format
  (prefix-compressed entries, 16-bit offsets), building a block and reading it back, with
  laws that decoding undoes encoding and that a built block yields its entries.
- `src/table.rs`, `src/table_builder.rs`, `src/table_iterator.rs`: SSTs made of blocks, the
  builder that cuts blocks at the block size and writes the table file (data blocks, meta
  section, bloom filter and their offsets), and the iterator with its binary-search seek;
  on sorted tables a seek yields exactly the entries at or after the key.
- `src/bloom.rs`: the bloom filter over key fingerprints; every fingerprint it was built
  from tests positive, and only the bits its probes land on are set.
- `src/iterators.rs` and `src/iterators/`: the iterator interface (each iterator is described
  by the stream of entries it still yields), concatenation, the k-way merge (smaller index
  wins on equal keys; merging sorted streams gives a sorted stream) and the two-way merge.
- `src/lsm_iterator.rs`: key bounds, the engine iterator that skips deletions and stops at an
  end bound, and the fused wrapper that stays invalid once it has failed.
- `src/compact.rs` and `src/compact/`: compaction tasks, the simple leveled, tiered and
  leveled policies, and writing a merged stream into tables of a target size; a full
  compaction keeps each key's newest value.
- `src/lsm_storage.rs`: the engine state (memtables by id, L0, levels, the table map), its
  options, its state changes (freeze, flush, full compaction), point reads, and range scans
  that merge what the memtables yield with the tables the bounds select; a scan yields each
  key within its bounds once, in order, with its newest value unless that is a deletion.
- `src/manifest.rs`: the records of the manifest.
- `app/lib.rs`: the manifest file (serde JSON records) and file names; no logic.
- `tests/`: executable tests on concrete values.

The outside crate `farmhash` computes key fingerprints and `bytes` holds encoded blocks;
both are reached through small trusted wrappers whose contracts are stated in `src/`.
