//! A trigram index over a tree of files: extraction of trigrams, building,
//! encoding and merging of indexes, and the evaluation of the trigram queries
//! that regular expressions are planned into.

pub mod format;
pub mod index;
pub mod laws;
pub mod location;
pub mod logger;
pub mod merge;
pub mod names;
pub mod paths;
pub mod planner;
pub mod postings;
pub mod query;
pub mod sorted;
pub mod trigram;
pub mod varint;
pub mod writer;

pub use index::{Index, IndexError, Posting};
pub use location::csearch_index;
pub use logger::{init, Logger};
pub use merge::{merge, Merged};
pub use planner::{plan, Regex};
pub use query::{evaluate, Query};
pub use trigram::{extract, ExtractConfig, SkipReason};
pub use writer::IndexWriter;
