//! An embeddable key-value engine: an LSM tree (memtable, write-ahead log,
//! sorted runs) with MVCC transactions, compaction and version garbage
//! collection.

pub mod keys;
pub mod keymap;
pub mod memtable;
pub mod types;
pub mod sstable;
pub mod sstfile;
pub mod lsm;
pub mod codec;
pub mod txn;
pub mod versions;
pub mod mvcc;
pub mod config;
pub mod compaction;
pub mod gc;
pub mod laws;
pub mod index;

pub use crate::compaction::CompactionManager;
pub use crate::config::{CompactionConfig, CompactionStats, CompactionStrategy, GcConfig, GcStats};
pub use crate::gc::GarbageCollector;
pub use crate::lsm::LsmStorage;
pub use crate::memtable::MemTable;
pub use crate::mvcc::MvccStorage;
pub use crate::sstable::{RunCatalog, SSTable};
pub use crate::txn::TransactionManager;
pub use crate::types::{
    DbError, Transaction, TransactionId, TransactionState, VersionTimestamp, VersionedRecord,
};
