//! Best-first search of an index by derivatives of a query.
pub mod course;
pub mod extent;
pub mod heap;
pub mod hits;
pub mod laws;
pub mod line;
pub mod machine;
pub mod match_laws;
pub mod outcome;
pub mod run;
pub mod trail;
pub mod types;
pub mod walk_laws;

pub use crate::search::run::{report_due, search, search_with_progress};
pub use crate::search::types::{
    SearchError, SearchHit, SearchOptions, SearchReport, SearchStopReason,
};
