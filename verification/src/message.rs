//! What the viewer asks of the background worker, and what it hears back.

use std::collections::HashMap;

use vstd::prelude::*;

use crate::config::CsvConfig;
use crate::filters::UniqueFilter;
use crate::index::CsvIndex;
use crate::selection::FilterRows;
use crate::unique::UniqueValue;

verus! {

/// The light state of an opened file that the viewer keeps.
#[derive(Clone, Debug)]
pub struct CsvSnapshot {
    pub headers: Vec<String>,
    pub row_count: usize,
}

impl CsvSnapshot {
    /// The column names and the number of rows indexed so far.
    pub fn from_index(index: &CsvIndex) -> (s: CsvSnapshot)
        ensures
            s.headers@ == index.headers@,
            s.row_count == index.row_offsets@.len(),
    {
        let mut headers: Vec<String> = Vec::new();
        let mut i: usize = 0;
        while i < index.headers.len()
            invariant
                0 <= i <= index.headers@.len(),
                headers@ == index.headers@.take(i as int),
            decreases index.headers@.len() - i,
        {
            headers.push(index.headers[i].clone());
            i = i + 1;
            assert(headers@ =~= index.headers@.take(i as int));
        }
        assert(index.headers@.take(i as int) =~= index.headers@);
        CsvSnapshot { headers, row_count: index.row_offsets.len() }
    }
}

/// A request to the worker.
pub enum Job {
    /// Open a file: preview it, then index it in the background.
    OpenFile { path: String, config: CsvConfig },
    /// Build the unique-value index of a column.
    IndexUnique { col: usize },
    /// Combine the given column filters into the rows shown.
    ApplyUniqueFilters { filters: HashMap<usize, UniqueFilter> },
    /// Read the given `(shown position, source row)` pairs, in the given
    /// columns.
    ReadRows { request_id: u64, rows: Vec<(usize, usize)>, columns: Vec<usize> },
    /// Write the given rows, in the given columns, to a CSV file.
    ExportRows { path: String, rows: Vec<usize>, visible_columns: Vec<usize> },
}

/// A report from the worker.
pub enum Event {
    Previewed(Result<CsvSnapshot, String>),
    IndexStarted(Result<(CsvSnapshot, u64), String>),
    IndexProgress { indexed_rows: usize, bytes: u64, total_bytes: u64 },
    Opened(Result<CsvSnapshot, String>),
    RowsRead { request_id: u64, rows: Vec<(usize, Vec<(usize, String)>)> },
    RowsReadDone { request_id: u64 },
    Exported(Result<String, String>),
    Filtered(Result<FilterRows, String>),
    FilterProgress { done: usize, total: usize },
    FilterCancelled,
    UniqueIndexed { col: usize, result: Result<Vec<UniqueValue>, String> },
    UniqueIndexProgress { col: usize, done: usize, total: usize },
}

} // verus!
