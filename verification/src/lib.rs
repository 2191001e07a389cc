//! A log-structured merge tree storage core: block and table encoding,
//! iterators over sorted runs, and the compaction planners.

pub mod codec;
pub mod key;
pub mod external;
pub mod block;
pub mod lsm_storage;
pub mod compact;
pub mod iterators;
pub mod table;
pub mod wal;
pub mod manifest;
pub mod workload;
