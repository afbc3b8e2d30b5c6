//! A log-structured merge-tree key-value store.

pub mod block_cache;
pub mod bloom;
pub mod buffer;
pub mod bytes;
pub mod cached;
pub mod clock;
pub mod codec;
pub mod compact_step;
pub mod compaction;
pub mod compaction_filter;
pub mod crc;
pub mod engine;
pub mod error;
pub mod family;
pub mod group_commit;
pub mod http_api;
pub mod iter;
pub mod layers;
pub mod listing;
pub mod manifest;
pub mod mem_table;
pub mod memtable;
pub mod merge_operator;
pub mod metrics;
pub mod occ;
pub mod recovery;
pub mod replay;
pub mod replication;
pub mod snapshot;
pub mod snapshot_gc;
pub mod sorted_map;
pub mod sstable;
pub mod storage;
pub mod stored;
pub mod table_format;
pub mod text;
pub mod wal;

pub use engine::{LsmEngine, Stats};
pub use metrics::Metrics;
pub use snapshot::{Snapshot, WriteBatch};
