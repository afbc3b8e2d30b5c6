# lsmdb

A key-value store built as a log-structured merge tree, verified with Verus.

Writes go to a log and to a sorted table in memory. When that table has 256 KiB it becomes an
immutable table file of level 0, and a manifest records which files are live. Levels are merged
downwards as they fill up. Reads look in memory first and then in the levels, the newest table
first.

A table file is a row of blocks, each with a count of its entries and a checksum, then a sparse
index, a Bloom filter and a footer. A file whose index, filter or footer cannot be read is left out
when the database is opened, and the library says which files those are. A block that does not
match its checksum costs only the keys in it: a search that would have to read it fails with
`InvalidData`, and every other search goes on. Blocks are stored as they are, not compressed.

## Layout

`src/` is the library. It does no I/O: the engine is opened from the contents of its files
(`storage::Storage`) and hands out the operations on them (`storage::FileOp`) in the order in
which they are to be performed. What is proved speaks of those operations too: whichever prefix of
them was performed when a crash came, opening the files gives what was there before the write that
was under way, or what is there after it. A batch is one such write, over all of its families.

- `engine`: the engine, with its writes (`write`), reads (`read`, `cached`), opening (`open`),
  crashes (`crash`) and what holds of all of it together (`laws`)
- `wal`, `manifest`, `table_format`, `sstable`, `bloom`, `codec`, `bytes`, `text`: file formats
- `memtable`, `mem_table`, `sorted_map`, `layers`, `family`, `iter`, `buffer`: data in memory
- `compaction`, `compact_step`: merging tables; `recovery`, `replay`, `stored`, `listing`: what
  files hold
- `snapshot`, `snapshot_gc`, `occ`: snapshots, batches and transactions
- `compaction_filter`, `merge_operator`, `block_cache`, `cached`, `group_commit`, `metrics`
- `replication`, `http_api`: the decisions of a replica and of a server
- `clock`, `crc`: the two things that come from outside

`app/` performs the operations on real files, runs compactions on a thread of their own, and offers
the database to threads, to asynchronous callers, over HTTP and to followers. `tests/` holds the
tests.

## What is assumed

`crc32fast::hash` computes the CRC-32 that `crc::crc32` defines. The clock may show anything. `String::push`,
`String::from_utf8` and `String::from_utf8_lossy` do what their documentation says. An operation on
a file is performed whole or not at all, and so is `FileOp::AppendAll`, which appends to several
logs; `app/` keeps a journal for it. The exception is a record that is cut short while it is
appended to one log: it is dropped when the log is read, which is proved.
