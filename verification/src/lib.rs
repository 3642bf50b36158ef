//! Verified core of a viewer for large CSV files.
//!
//! The library keeps byte offsets of records instead of whole tables, reads
//! records back on demand, guesses how a file is written, filters and
//! searches rows, combines per-column value filters, and keeps the row sets
//! and row caches that the viewer shows.

pub mod external;
pub mod text;
pub mod rows;
pub mod config;
pub mod scan;
pub mod index;
pub mod query;
pub mod unique;
pub mod selection;
pub mod filters;
pub mod logical;
pub mod matching;
pub mod sniff;
pub mod row_cache;
pub mod message;
pub mod export;

pub use config::{CsvConfig, CsvEncoding};
pub use export::export_records;
pub use filters::{filter_from_unique_indexes, UniqueFilter};
pub use index::{CsvIndex, CsvReadPlan};
pub use logical::LogicalRows;
pub use matching::contains_filter_value;
pub use message::{CsvSnapshot, Event, Job};
pub use query::FilterMode;
pub use row_cache::RowCache;
pub use scan::CsvError;
pub use selection::{FilterRows, RowSelection};
pub use sniff::{sniff_csv, sniff_csv_with_skip, CsvSniffResult};
pub use unique::{UniqueColumnIndex, UniqueValue};
pub use viewer::{CachedRow, VisibleRows};
pub mod viewer;
pub mod requests;
pub mod session;
