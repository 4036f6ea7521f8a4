//! A persistent key-value store: a log-structured engine with an in-memory
//! index and online compaction, the building blocks of a leveled variant
//! (memtable, versioned file set, compaction planner), and the framing rules
//! of the wire protocol.

pub mod engines;
pub mod error;
pub mod proto;
pub mod server;

pub use engines::kv::KvStore;
pub use engines::KvsEngine;
pub use error::KVSError;
pub use proto::Command;
pub use proto::Record;
pub use server::KvServer;
