pub mod bloom;
pub mod bytes;
pub mod compaction;
pub mod engine;
pub mod error;
pub mod kv;
pub mod memtable;
pub mod sstable;
pub mod wal;

pub use engine::Engine;
pub use memtable::MemTable;
