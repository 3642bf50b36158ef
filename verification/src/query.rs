//! Row filters that scan one column of the data records.

use vstd::prelude::*;

use crate::config::{decode_text, CsvConfig, CsvEncoding};
use crate::index::CsvIndex;
use crate::scan::{
    cursor_at, data_records, data_start, first_len_of, lengths_agree, read_next, records,
    skip_to_data, stopped_at, went_on_through, whole_pass_fails, CsvError,
};
use crate::text::{chars_of, compare_text, contains_text, insert_text, key_texts, text_contains, texts_sorted, TextOrder};

verus! {

/// How a column filter decides which rows it keeps.
#[derive(Clone, Copy, Debug, PartialEq, Eq, Structural)]
pub enum FilterMode {
    /// The cell contains the keyword.
    Contains,
    /// The cell equals the keyword.
    Equals,
    /// The first row with each distinct cell value.
    UniqueByValue,
}

/// The text of column `col` of a record; empty when the record lacks it.
pub open spec fn cell_of(encoding: CsvEncoding, fields: Seq<Seq<u8>>, col: usize) -> Seq<char> {
    if col < fields.len() {
        decode_text(encoding, fields[col as int])
    } else {
        Seq::empty()
    }
}

/// The text of column `col` of every data record.
pub open spec fn column_cells(data: Seq<u8>, cfg: CsvConfig, col: usize) -> Seq<Seq<char>> {
    data_records(data, cfg).map_values(|r: (int, Seq<Seq<u8>>)| cell_of(cfg.encoding, r.1, col))
}

/// Row `i` of `cells` passes the filter.
pub open spec fn is_hit(cells: Seq<Seq<char>>, i: int, keyword: Seq<char>, mode: FilterMode) -> bool {
    match mode {
        FilterMode::Contains => text_contains(cells[i], keyword),
        FilterMode::Equals => cells[i] == keyword,
        FilterMode::UniqueByValue => !cells.take(i).contains(cells[i]),
    }
}

/// The rows of `cells` that pass the filter, in increasing order.
pub open spec fn filter_hits(cells: Seq<Seq<char>>, keyword: Seq<char>, mode: FilterMode) -> Seq<usize>
    decreases cells.len(),
{
    if cells.len() == 0 {
        Seq::empty()
    } else {
        let rest = filter_hits(cells.drop_last(), keyword, mode);
        if is_hit(cells, cells.len() - 1, keyword, mode) {
            rest.push((cells.len() - 1) as usize)
        } else {
            rest
        }
    }
}

/// Decodes column `col` of a record (empty when it lacks that column).
pub fn cell_text(config: &CsvConfig, fields: &Vec<Vec<u8>>, col: usize) -> (s: String)
    ensures
        s@ == cell_of(config.encoding, fields.deep_view(), col),
{
    if col < fields.len() {
        assert(fields@[col as int].deep_view() =~= fields@[col as int]@);
        config.decode_field(fields[col].as_slice())
    } else {
        String::new()
    }
}

impl CsvIndex {
    /// The data rows whose column `col` passes the filter.
    pub fn filter_rows(&self, data: &[u8], col: usize, keyword: &str, mode: FilterMode) -> (res: Result<
        Vec<usize>,
        CsvError,
    >)
        ensures
            res is Err <==> whole_pass_fails(data@, self.config),
            res matches Ok(rows) ==> rows@ == filter_hits(column_cells(data@, self.config, col), keyword@, mode),
    {
        let r = self.filter_rows_with_progress(data, col, keyword, mode, |_done: usize, _total: usize| -> (stop: bool)
            ensures
                !stop,
            { false });
        r
    }

    /// Like `filter_rows`, calling `on_progress(rows scanned, rows indexed)`
    /// every 10,000 rows and once at the end; when a call during the scan
    /// returns true, the scan stops and the rows found so far are returned.
    pub fn filter_rows_with_progress<F>(
        &self,
        data: &[u8],
        col: usize,
        keyword: &str,
        mode: FilterMode,
        on_progress: F,
    ) -> (res: Result<Vec<usize>, CsvError>) where F: Fn(usize, usize) -> bool
        requires
            forall|done: usize, total: usize|
                total == self.row_offsets@.len() && done <= column_cells(data@, self.config, col).len()
                    ==> #[trigger] on_progress.requires((done, total)),
        ensures
            res is Err ==> whole_pass_fails(data@, self.config),
            res matches Ok(rows) ==> {
                let cells = column_cells(data@, self.config, col);
                let total = self.row_offsets.len();
                ||| rows@ == filter_hits(cells, keyword@, mode) && went_on_through(on_progress, cells.len() as int, total)
                ||| exists|k: usize|
                    k <= cells.len() && #[trigger] stopped_at(on_progress, k, total) && rows@ == filter_hits(
                        cells.take(k as int),
                        keyword@,
                        mode,
                    )
            },
            (forall|done: usize, total: usize, stop: bool| on_progress.ensures((done, total), stop) ==> !stop) ==> {
                &&& res is Err <==> whole_pass_fails(data@, self.config)
                &&& res matches Ok(rows) ==> rows@ == filter_hits(column_cells(data@, self.config, col), keyword@, mode)
            },
    {
        let ghost cfg = self.config;
        let ghost rs = records(data@, cfg);
        let ghost cells = column_cells(data@, cfg, col);
        let ghost ds = data_start(data@, cfg);
        let kw = chars_of(keyword);
        let (mut pos, mut first_len) = skip_to_data(data, &self.config)?;
        let ghost mut read: int = ds;
        let mut out: Vec<usize> = Vec::new();
        let mut seen: Vec<Vec<char>> = Vec::new();
        let mut row_idx: usize = 0;
        let total = self.row_offsets.len();
        let n = data.len();
        proof {
            crate::scan::lemma_scan_len(data@, 0, false, cfg.delimiter, cfg.quote);
            assert(cells.take(0) =~= Seq::<Seq<char>>::empty());
            assert(key_texts(seen@) =~= Seq::<Seq<char>>::empty());
        }
        loop
            invariant
                forall|done: usize, t: usize|
                    t == self.row_offsets@.len() && done <= column_cells(data@, self.config, col).len()
                        ==> #[trigger] on_progress.requires((done, t)),
                total == self.row_offsets@.len(),
                went_on_through(on_progress, row_idx as int, total),
                cfg == self.config,
                rs == records(data@, cfg),
                ds == data_start(data@, cfg),
                cells == column_cells(data@, cfg, col),
                kw@ == keyword@,
                cursor_at(data@, cfg, pos as int, read),
                first_len_of(data@, cfg, read, first_len),
                lengths_agree(rs, read, cfg.flexible),
                !crate::scan::pass_fails(data@, cfg, crate::scan::preamble_len(cfg)),
                ds <= read <= rs.len(),
                row_idx == read - ds,
                cells.len() == rs.len() - ds,
                out@ == filter_hits(cells.take(row_idx as int), keyword@, mode),
                rs.len() <= data@.len(),
                n == data@.len(),
                mode == FilterMode::UniqueByValue ==> texts_sorted(key_texts(seen@)),
                mode == FilterMode::UniqueByValue ==> forall|t: Seq<char>|
                    key_texts(seen@).contains(t) <==> cells.take(row_idx as int).contains(t),
            decreases rs.len() - read,
        {
            match read_next(data, &self.config, pos, first_len, Ghost(0), Ghost(read)) {
                Err(e) => {
                    return Err(e);
                },
                Ok(None) => {
                    let _ = on_progress(row_idx, total);
                    proof {
                        assert(cells.take(row_idx as int) =~= cells);
                    }
                    return Ok(out);
                },
                Ok(Some((fields, end))) => {
                    if first_len.is_none() {
                        first_len = Some(fields.len());
                    }
                    let cell = cell_text(&self.config, &fields, col);
                    let cell_chars = chars_of(cell.as_str());
                    proof {
                        assert(data_records(data@, cfg)[row_idx as int] == rs[read]);
                        assert(cells[row_idx as int] == cell_chars@);
                    }
                    let hit = match mode {
                        FilterMode::Contains => contains_text(cell_chars.as_slice(), kw.as_slice()),
                        FilterMode::Equals => compare_text(cell_chars.as_slice(), kw.as_slice()) == TextOrder::Equal,
                        FilterMode::UniqueByValue => insert_text(&mut seen, cell_chars),
                    };
                    proof {
                        let c1 = cells.take(row_idx + 1);
                        assert(c1.drop_last() =~= cells.take(row_idx as int));
                        assert(c1.take(row_idx as int) =~= cells.take(row_idx as int));
                        assert(c1[row_idx as int] == cells[row_idx as int]);
                        assert(hit == is_hit(c1, row_idx as int, keyword@, mode));
                        assert(cells.take(row_idx + 1) =~= cells.take(row_idx as int).push(cells[row_idx as int]));
                        if mode == FilterMode::UniqueByValue {
                            assert forall|t: Seq<char>| key_texts(seen@).contains(t) <==> c1.contains(t) by {
                                crate::rows::lemma_push_contains(cells.take(row_idx as int), cells[row_idx as int], t);
                            }
                        }
                    }
                    if hit {
                        out.push(row_idx);
                    }
                    row_idx = row_idx + 1;
                    pos = end;
                    proof {
                        read = read + 1;
                    }
                    if row_idx % 10_000 == 0 && on_progress(row_idx, total) {
                        proof {
                            assert(stopped_at(on_progress, row_idx, total));
                            assert(row_idx <= cells.len());
                            assert(total == self.row_offsets.len());
                            assert(exists|k: usize|
                                k <= cells.len() && #[trigger] stopped_at(on_progress, k, total) && out@ == filter_hits(
                                    cells.take(k as int),
                                    keyword@,
                                    mode,
                                ));
                        }
                        return Ok(out);
                    }
                },
            }
        }
    }
}

} // verus!
