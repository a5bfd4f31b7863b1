//! Preparation of the known Chinese corpus sources.
//!
//! Every accepted field is tied to a known source schema, so timestamps,
//! usernames, URLs, system prompts, markup annotations and other metadata do
//! not silently become index records.
pub mod address_laws;
pub mod csv;
pub mod csv_laws;
pub mod field_laws;
pub mod fields;
pub mod files;
pub mod find;
pub mod json;
pub mod laws;
pub mod line_laws;
pub mod poetry;
pub mod preparer;
pub mod print_laws;
pub mod prints;
pub mod source;
pub mod types;
pub mod weights;
pub mod wiki;
pub mod wiki_laws;
pub mod xml;
pub mod xml_laws;

pub use crate::corpus::files::{
    is_poetry_source_path, is_wikipedia_shard, poetry_collections, prepare_source,
    prepare_source_with_progress, select_source, PathKind, ProgressReader, Selection, SourceFile,
};
pub use crate::corpus::preparer::Preparer;
pub use crate::corpus::source::{process_file, process_whole, SourceReader};
pub use crate::corpus::types::{
    PrepareError, PrepareErrorSample, PrepareProgress, PrepareReport, PrepareStats, SourceKind,
    WeightedRecord,
};
