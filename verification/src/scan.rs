//! The sequence of records that one pass of a CSV reader yields, and a
//! cursor that walks it one record at a time.

use vstd::prelude::*;

use crate::config::{decode_fields, CsvConfig};
use crate::external::{csv_first_record, csv_next_record, csv_read_first, csv_read_next};

verus! {

/// Errors met while reading CSV records.
#[derive(Debug)]
pub enum CsvError {
    /// The CSV reader reported an error.
    Read(csv::Error),
    /// In strict (non-flexible) mode, a record has a different number of
    /// fields than the first record of the same pass.
    UnequalLengths { expected_len: usize, len: usize },
    /// More rows than a unique-value index can number.
    TooManyRows,
}

/// A UTF-8 byte-order mark begins `input`.
pub open spec fn starts_with_bom(input: Seq<u8>) -> bool {
    input.len() >= 3 && input[0] == 0xEF && input[1] == 0xBB && input[2] == 0xBF
}

/// What a reader reports for the next record of `input`: a fresh reader
/// when `started` is false, one that has already read otherwise (the bytes
/// consumed counted from the start of `input`). The two differ only where
/// `input` begins with a byte-order mark, which a fresh reader drops and one
/// that has read keeps as data (`csv-core`'s `strip_utf8_bom` looks at the
/// input only before the first read).
pub open spec fn read_step(input: Seq<u8>, started: bool, delimiter: u8, quote: u8) -> Option<(bool, Seq<Seq<u8>>, int)> {
    if started && starts_with_bom(input) {
        match csv_read_next(input, delimiter, quote) {
            Some(r) => Some((r.0, r.1, r.2 - 1)),
            None => None,
        }
    } else {
        csv_read_first(input, delimiter, quote)
    }
}

/// The records that one reader pass yields from byte `pos` on, each with the
/// byte offset where reading it began, and whether the pass ends with a
/// reader error (rather than at the end of the data). The reader is fresh
/// at `pos` unless `started`; after its first record it has read.
pub open spec fn scan_from(data: Seq<u8>, pos: int, started: bool, delimiter: u8, quote: u8) -> (Seq<(int, Seq<Seq<u8>>)>, bool)
    decreases data.len() - pos,
{
    if 0 <= pos <= data.len() {
        match read_step(data.subrange(pos, data.len() as int), started, delimiter, quote) {
            None => (Seq::empty(), true),
            Some(r) => if r.0 && 0 < r.2 && pos + r.2 <= data.len() {
                let rest = scan_from(data, pos + r.2, true, delimiter, quote);
                (seq![(pos, r.1)] + rest.0, rest.1)
            } else {
                (Seq::empty(), false)
            },
        }
    } else {
        (Seq::empty(), false)
    }
}

/// No byte-order mark begins anywhere in `data` after its first byte.
pub open spec fn no_inner_bom(data: Seq<u8>) -> bool {
    forall|p: int| 0 < p <= data.len() ==> !#[trigger] starts_with_bom(data.subrange(p, data.len() as int))
}

/// Where no byte-order mark begins, a fresh reader and one that has read
/// yield the same pass.
pub proof fn lemma_fresh_reads_as_started(data: Seq<u8>, pos: int, delimiter: u8, quote: u8)
    requires
        0 <= pos <= data.len(),
        !starts_with_bom(data.subrange(pos, data.len() as int)),
    ensures
        scan_from(data, pos, false, delimiter, quote) == scan_from(data, pos, true, delimiter, quote),
{
    reveal_with_fuel(scan_from, 1);
}

/// The progress calls of a scan at every multiple of 10,000 rows up to `n`
/// answered "go on" (`false`).
pub open spec fn went_on_through<F: Fn(usize, usize) -> bool>(f: F, n: int, total: usize) -> bool {
    forall|j: usize| 0 < j <= n && j % 10_000 == 0 ==> #[trigger] f.ensures((j, total), false)
}

/// A scan stopped at the first "stop" (`true`) answer of its progress calls,
/// given after `k` rows.
pub open spec fn stopped_at<F: Fn(usize, usize) -> bool>(f: F, k: usize, total: usize) -> bool {
    &&& k > 0
    &&& k % 10_000 == 0
    &&& f.ensures((k, total), true)
    &&& went_on_through(f, k - 1, total)
}

/// All records of the file, read from its first byte.
pub open spec fn records(data: Seq<u8>, cfg: CsvConfig) -> Seq<(int, Seq<Seq<u8>>)> {
    scan_from(data, 0, false, cfg.delimiter, cfg.quote).0
}

/// The pass over the whole file ends with a reader error.
pub open spec fn reader_fails(data: Seq<u8>, cfg: CsvConfig) -> bool {
    scan_from(data, 0, false, cfg.delimiter, cfg.quote).1
}

/// Among the first `k` records of `rs`, every one has as many fields as the
/// first (always true in flexible mode).
pub open spec fn lengths_agree(rs: Seq<(int, Seq<Seq<u8>>)>, k: int, flexible: bool) -> bool {
    flexible || forall|i: int| 0 <= i < k && i < rs.len() ==> #[trigger] rs[i].1.len() == rs[0].1.len()
}

/// A pass that tries to read up to `k` records fails: either the reader
/// errs before `k` records were read, or in strict mode one of the records
/// read has a different number of fields than the first.
pub open spec fn pass_fails(data: Seq<u8>, cfg: CsvConfig, k: int) -> bool {
    let rs = records(data, cfg);
    (reader_fails(data, cfg) && rs.len() < k) || !lengths_agree(rs, k, cfg.flexible)
}

/// A pass that reads until the end fails.
pub open spec fn whole_pass_fails(data: Seq<u8>, cfg: CsvConfig) -> bool {
    pass_fails(data, cfg, records(data, cfg).len() as int + 1)
}

/// Number of records before the data: the skipped records and the header.
pub open spec fn preamble_len(cfg: CsvConfig) -> int {
    cfg.skip_lines + if cfg.has_headers { 1int } else { 0int }
}

/// Index of the first data record among all records.
pub open spec fn data_start(data: Seq<u8>, cfg: CsvConfig) -> int {
    let n = records(data, cfg).len() as int;
    if preamble_len(cfg) < n { preamble_len(cfg) } else { n }
}

/// The data records: those after the skipped records and the header.
pub open spec fn data_records(data: Seq<u8>, cfg: CsvConfig) -> Seq<(int, Seq<Seq<u8>>)> {
    records(data, cfg).skip(data_start(data, cfg))
}

/// The header names the file gives, if it has a header record.
pub open spec fn named_headers(data: Seq<u8>, cfg: CsvConfig) -> Seq<Seq<char>> {
    let rs = records(data, cfg);
    if cfg.has_headers && rs.len() > cfg.skip_lines {
        decode_fields(cfg.encoding, rs[cfg.skip_lines as int].1)
    } else {
        Seq::empty()
    }
}

/// The records of a pass that begins at byte `origin`.
pub open spec fn records_from(data: Seq<u8>, cfg: CsvConfig, origin: int) -> Seq<(int, Seq<Seq<u8>>)> {
    scan_from(data, origin, false, cfg.delimiter, cfg.quote).0
}

/// The pass that begins at byte `origin` ends with a reader error.
pub open spec fn fails_from(data: Seq<u8>, cfg: CsvConfig, origin: int) -> bool {
    scan_from(data, origin, false, cfg.delimiter, cfg.quote).1
}

/// A cursor of the pass that begins at `origin` has read `read` records
/// and stands at byte `pos`, where the rest of that pass begins.
pub open spec fn cursor_from(data: Seq<u8>, cfg: CsvConfig, origin: int, pos: int, read: int) -> bool {
    let rs = records_from(data, cfg, origin);
    &&& 0 <= pos <= data.len()
    &&& 0 <= read <= rs.len()
    &&& scan_from(data, pos, read > 0, cfg.delimiter, cfg.quote).0 == rs.skip(read)
    &&& scan_from(data, pos, read > 0, cfg.delimiter, cfg.quote).1 == fails_from(data, cfg, origin)
}

/// `cursor_from` for the pass over the whole file.
pub open spec fn cursor_at(data: Seq<u8>, cfg: CsvConfig, pos: int, read: int) -> bool {
    cursor_from(data, cfg, 0, pos, read)
}

/// The remembered field count of the first record of the pass from `origin`.
pub open spec fn first_len_from(data: Seq<u8>, cfg: CsvConfig, origin: int, read: int, first_len: Option<usize>) -> bool {
    if read > 0 {
        first_len matches Some(n) && n as int == records_from(data, cfg, origin)[0].1.len()
    } else {
        first_len is None
    }
}

/// `first_len_from` for the pass over the whole file.
pub open spec fn first_len_of(data: Seq<u8>, cfg: CsvConfig, read: int, first_len: Option<usize>) -> bool {
    first_len_from(data, cfg, 0, read, first_len)
}

/// A pass from `pos` yields at most one record per remaining byte.
pub proof fn lemma_scan_len(data: Seq<u8>, pos: int, started: bool, delimiter: u8, quote: u8)
    ensures
        scan_from(data, pos, started, delimiter, quote).0.len() <= if 0 <= pos <= data.len() { data.len() - pos } else { 0 },
    decreases data.len() - pos,
{
    if 0 <= pos <= data.len() {
        match read_step(data.subrange(pos, data.len() as int), started, delimiter, quote) {
            None => {},
            Some(r) => {
                if r.0 && 0 < r.2 && pos + r.2 <= data.len() {
                    lemma_scan_len(data, pos + r.2, true, delimiter, quote);
                }
            },
        }
    }
}

pub proof fn lemma_cursor_origin(data: Seq<u8>, cfg: CsvConfig, origin: int)
    requires
        0 <= origin <= data.len(),
    ensures
        cursor_from(data, cfg, origin, origin, 0),
{
    assert(records_from(data, cfg, origin).skip(0) =~= records_from(data, cfg, origin));
}

pub proof fn lemma_cursor_start(data: Seq<u8>, cfg: CsvConfig)
    ensures
        cursor_at(data, cfg, 0, 0),
{
    assert(records(data, cfg).skip(0) =~= records(data, cfg));
}

/// Reads the next record of a pass. `pos` is where the pass stands after
/// `read` records; `first_len` is the field count of the first record.
pub fn read_next(
    data: &[u8],
    cfg: &CsvConfig,
    pos: usize,
    first_len: Option<usize>,
    Ghost(origin): Ghost<int>,
    Ghost(read): Ghost<int>,
) -> (res: Result<Option<(Vec<Vec<u8>>, usize)>, CsvError>)
    requires
        cursor_from(data@, *cfg, origin, pos as int, read),
        first_len_from(data@, *cfg, origin, read, first_len),
        lengths_agree(records_from(data@, *cfg, origin), read, cfg.flexible),
    ensures
        match res {
            Ok(Some((f, e))) => {
                let rs = records_from(data@, *cfg, origin);
                &&& read < rs.len()
                &&& rs[read].0 == pos as int
                &&& rs[read].1 == f.deep_view()
                &&& rs[read].1.len() > 0
                &&& cursor_from(data@, *cfg, origin, e as int, read + 1)
                &&& lengths_agree(rs, read + 1, cfg.flexible)
            },
            Ok(None) => read == records_from(data@, *cfg, origin).len() && !fails_from(data@, *cfg, origin),
            Err(_) => {
                let rs = records_from(data@, *cfg, origin);
                ||| read == rs.len() && fails_from(data@, *cfg, origin)
                ||| read < rs.len() && !lengths_agree(rs, read + 1, cfg.flexible)
            },
        },
{
    let ghost rs = records_from(data@, *cfg, origin);
    let input = &data[pos..data.len()];
    let started = first_len.is_some();
    let bom = input.len() >= 3 && input[0] == 0xEF && input[1] == 0xBB && input[2] == 0xBF;
    let r = if started && bom {
        match csv_next_record(input, cfg.delimiter, cfg.quote) {
            Ok((found, fields, consumed)) => Ok((found, fields, consumed - 1)),
            Err(e) => Err(e),
        }
    } else {
        csv_first_record(input, cfg.delimiter, cfg.quote)
    };
    proof {
        reveal_with_fuel(scan_from, 1);
    }
    match r {
        Err(e) => {
            assert(scan_from(data@, pos as int, started, cfg.delimiter, cfg.quote).0.len() == 0);
            assert(scan_from(data@, pos as int, started, cfg.delimiter, cfg.quote).1);
            assert(rs.skip(read).len() == 0);
            assert(read == rs.len());
            Err(CsvError::Read(e))
        },
        Ok((found, fields, consumed)) => {
            if !found {
                assert(rs.skip(read).len() == 0);
                return Ok(None);
            }
            let end = pos + consumed as usize;
            assert(input@ == data@.subrange(pos as int, data@.len() as int));
            let ghost rest = scan_from(data@, end as int, true, cfg.delimiter, cfg.quote);
            assert(scan_from(data@, pos as int, started, cfg.delimiter, cfg.quote).0 == seq![(pos as int, fields.deep_view())] + rest.0);
            assert((seq![(pos as int, fields.deep_view())] + rest.0).drop_first() =~= rest.0);
            assert(rs.skip(read)[0] == rs[read]);
            assert(rs.skip(read + 1) =~= rs.skip(read).drop_first());
            assert(fields.deep_view() == rs[read].1);
            if !cfg.flexible {
                match first_len {
                    Some(expected) => {
                        if fields.len() != expected {
                            assert(rs[read].1.len() != rs[0].1.len());
                            return Err(CsvError::UnequalLengths { expected_len: expected, len: fields.len() });
                        }
                    },
                    None => {},
                }
            }
            assert(fields.deep_view().len() == fields@.len());
            assert(lengths_agree(rs, read + 1, cfg.flexible)) by {
                if !cfg.flexible {
                    assert forall|i: int| 0 <= i < read + 1 && i < rs.len() implies #[trigger] rs[i].1.len()
                        == rs[0].1.len() by {
                        if i < read {
                            assert(lengths_agree(rs, read, cfg.flexible));
                        }
                    }
                }
            }
            Ok(Some((fields, end)))
        },
    }
}

/// Reads past the skipped records and the header record (if any), leaving
/// the pass at the first data record.
pub fn skip_to_data(data: &[u8], cfg: &CsvConfig) -> (res: Result<(usize, Option<usize>), CsvError>)
    ensures
        res is Err <==> pass_fails(data@, *cfg, preamble_len(*cfg)),
        res matches Ok((pos, first_len)) ==> {
            &&& cursor_at(data@, *cfg, pos as int, data_start(data@, *cfg))
            &&& first_len_of(data@, *cfg, data_start(data@, *cfg), first_len)
            &&& lengths_agree(records(data@, *cfg), data_start(data@, *cfg), cfg.flexible)
        },
{
    let ghost rs = records(data@, *cfg);
    let mut pos: usize = 0;
    let mut first_len: Option<usize> = None;
    let ghost mut read: int = 0;
    proof {
        lemma_cursor_start(data@, *cfg);
    }
    let mut i: usize = 0;
    while i < cfg.skip_lines
        invariant
            rs == records(data@, *cfg),
            i <= cfg.skip_lines,
            read == i,
            cursor_at(data@, *cfg, pos as int, read),
            first_len_of(data@, *cfg, read, first_len),
            lengths_agree(rs, read, cfg.flexible),
        decreases cfg.skip_lines - i,
    {
        match read_next(data, cfg, pos, first_len, Ghost(0), Ghost(read)) {
            Err(e) => {
                return Err(e);
            },
            Ok(None) => {
                return Ok((pos, first_len));
            },
            Ok(Some((fields, end))) => {
                if first_len.is_none() {
                    first_len = Some(fields.len());
                }
                pos = end;
                proof {
                    read = read + 1;
                }
                i = i + 1;
            },
        }
    }
    if cfg.has_headers {
        match read_next(data, cfg, pos, first_len, Ghost(0), Ghost(read)) {
            Err(e) => {
                return Err(e);
            },
            Ok(None) => {
                return Ok((pos, first_len));
            },
            Ok(Some((fields, end))) => {
                if first_len.is_none() {
                    first_len = Some(fields.len());
                }
                return Ok((end, first_len));
            },
        }
    }
    Ok((pos, first_len))
}

} // verus!
