//! An embedded, log-structured key-value store.
//!
//! Every mutation is appended to a command log as a self-framed record; an
//! in-memory index maps each live key to the location of its latest record.
//! The index can be rebuilt by replaying the log, and compaction rewrites the
//! log so that it holds one record per live key.
pub mod error;
pub mod codec;
pub mod index;
pub mod store;

pub use error::KvsError;
pub use codec::{Command, LogRecord};
pub use index::MemoryData;
pub use store::KvStore;
