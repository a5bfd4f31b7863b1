//! A compact trie of Unicode keys with frequencies: writing, reading, building.
pub mod aggregate;
pub mod build_laws;
pub mod builder;
pub mod check_laws;
pub mod codec;
pub mod error;
pub mod header;
pub mod laws;
pub mod layout;
pub mod measure;
pub mod merge;
pub mod merge_text;
pub mod mode;
pub mod model;
pub mod naming;
pub mod node;
pub mod pending;
pub mod reader;
pub mod reports;
pub mod shard;
pub mod shard_laws;
pub mod unique_laws;
pub mod validate;
pub mod walker;
pub mod writer;

pub use crate::index::builder::{
    build_index, BuildOptions, BuildReport, ExternalIndexBuilder, IndexRecord,
};
pub use crate::index::error::IndexError;
pub use crate::index::merge::MergeRun;
pub use crate::index::merge_text::{
    merge_text_shards, merge_text_shards_with_min_count,
    merge_text_shards_with_min_count_and_progress, MergeReport, TextShard,
};
pub use crate::index::mode::IndexMode;
pub use crate::index::naming::{list_text_shards, shard_ordinal, shard_path};
pub use crate::index::node::{Edge, Node};
pub use crate::index::reader::IndexReader;
pub use crate::index::reports::{is_merge_report_due, MergeProgress, MergeReports};
pub use crate::index::validate::ValidationStats;
pub use crate::index::walker::{IndexWalker, WalkEntry};
pub use crate::index::writer::{IndexWriteStats, TrieWriter};
