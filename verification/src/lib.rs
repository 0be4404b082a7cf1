//! A single-file, log-structured key/value store in the Bitcask family,
//! with its log format, key directory and engine verified.

pub mod compaction;
pub mod engine;
pub mod error;
pub mod frame;
pub mod history;
pub mod key;
pub mod keydir;
pub mod log;
pub mod recovery;
pub mod scan;
pub mod status;
