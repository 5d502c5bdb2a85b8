//! Parts of a log-structured merge tree with versioned keys: reading blocks, merging sorted iterators,
//! and compaction.

pub mod acceptance_laws;
pub mod block;
pub mod block_laws;
pub mod compact;
pub mod compaction_laws;
pub mod error;
pub mod failure_laws;
pub mod fault;
pub mod iterator_laws;
pub mod iterators;
pub mod key;
pub mod key_laws;
pub mod lsm_storage;
pub mod memory;
pub mod memory_laws;
pub mod merge;
pub mod read_laws;
pub mod retention;
pub mod retention_laws;
pub mod stop_laws;
pub mod storage_laws;
pub mod strategy_laws;
pub mod stream_laws;
pub mod table;
pub mod task_laws;
