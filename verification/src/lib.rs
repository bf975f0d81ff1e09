//! Duplicate-file detection engine.
//!
//! The engine turns a set of file descriptors gathered from a filesystem walk
//! into groups of files that are byte-identical, using cheap discriminators
//! before expensive ones: entries naming the same physical file are collapsed
//! first, the survivors are partitioned by exact byte length, and each size
//! class is then partitioned by a full-content digest.  Groups are ranked by
//! wasted space and summarised in a one-line status string.
//!
//! All filesystem access stays with the caller: the walker decisions, the
//! grouping stages and the ranking are pure functions over in-memory
//! descriptors, so every stage carries a contract and is verified.

use vstd::prelude::*;

pub mod action_name;
pub mod digest;
pub mod exclusion;
pub mod file_info;
pub mod find_duplicates;
pub mod format_number;
pub mod grouping;

pub use file_info::FileInfo;
pub use file_info::HashedFile;
pub use find_duplicates::DuplicatesGroup;
