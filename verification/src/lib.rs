//! An embedded, log-structured key-value store: every write appends one
//! record to a single growing log, and an in-memory key directory maps each
//! key to the offset of its latest record. Opening an existing log replays
//! it from the start to rebuild the directory.

pub mod format;
pub mod key_dir;
pub mod store;
