//! A log-structured key-value store: commands are appended to
//! generation-numbered segments, an in-memory index records where the latest
//! command of each key lies, and compaction rewrites the live records into a
//! fresh segment.
//!
//! The crate also carries a small line-search utility.

pub mod command;
pub mod error;
pub mod index;
pub mod laws;
pub mod linesearch;
pub mod segments;
pub mod store;
pub mod webroute;

pub use command::Commend;
pub use error::{KvError, Result};
pub use index::CommandPos;
pub use linesearch::{search, search_insensitive_case, Config};
pub use segments::{log_name, segment_gen, sorted_gen_list, stale_gens};
pub use store::{KvStore, Segment};
