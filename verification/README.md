# mini_lsm

The core of a log-structured merge tree, with its behaviour stated in
contracts and proved with Verus.

- `src/` is the verified library:
  - `block`, `table`: the block and table formats, their builders and
    iterators. A block builder refuses an entry that would make its encoded
    block larger than the block size, unless the block is empty. Where the
    block size is under 64 KiB, every key is non-empty and each key and value
    take under 64 KiB with their 14 bytes of lengths and timestamp, a table
    built from a run of entries reads back those entries, and the meta of
    each block holds that block's first and last keys.
  - `iterators`: the iterator interface and its merging (`TwoMergeIterator`,
    `MergeIterator`) and concatenating (`SstConcatIterator`) forms.
  - `compact`: the compaction planners (simple leveled, leveled, tiered), the
    compaction run that writes merged entries into new tables, the state
    changes that follow it, and one round of all three (`compaction_step`).
  - `wal`, `manifest`: the byte formats of the write-ahead log and of the
    manifest, and reading them back.
  - `workload`: the keys of the point-lookup workload.
  - `external`: the calls into the `bytes` and `crc32fast` crates, with the
    contracts the proofs rely on.
- `app/` holds what works with files: the log and the manifest on disk, serde
  forms of the manifest records, and writing a table to a file.
- `tests/` runs the library on concrete values.
