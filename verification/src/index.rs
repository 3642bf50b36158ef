//! The row index of a CSV file: header names and the byte offset of every
//! data record, and reading rows back from those offsets.

use vstd::prelude::*;

use crate::config::{decode_fields, decode_text, CsvConfig};
use crate::external::string_from_chars;
use crate::scan::{
    cursor_at, cursor_from, data_records, fails_from, first_len_from, lemma_cursor_origin,
    records_from, scan_from, data_start, first_len_of, lemma_cursor_start, lengths_agree,
    named_headers, pass_fails, preamble_len, read_next, reader_fails, records, whole_pass_fails,
    read_step, no_inner_bom, lemma_fresh_reads_as_started, starts_with_bom,
    CsvError,
};

verus! {

/// The decimal digit character for `d` (below ten).
pub open spec fn digit_char(d: nat) -> char {
    (48 + d) as char
}

/// The decimal notation of `n`.
pub open spec fn decimal(n: nat) -> Seq<char>
    decreases n,
{
    if n < 10 {
        seq![digit_char(n)]
    } else {
        decimal(n / 10).push(digit_char(n % 10))
    }
}

/// The name given to the `k`-th column (counting from one) of a file
/// without header names: `Column k`.
pub open spec fn column_label(k: nat) -> Seq<char> {
    seq!['C', 'o', 'l', 'u', 'm', 'n', ' '] + decimal(k)
}

/// Names for `n` columns: `Column 1` up to `Column n`.
pub open spec fn column_names(n: nat) -> Seq<Seq<char>> {
    Seq::new(n, |i: int| column_label((i + 1) as nat))
}

/// Names generated from the first record (in `rs`) that has any field.
pub open spec fn generated_headers(rs: Seq<(int, Seq<Seq<u8>>)>) -> Seq<Seq<char>>
    decreases rs.len(),
{
    if rs.len() == 0 {
        Seq::empty()
    } else if rs[0].1.len() > 0 {
        column_names(rs[0].1.len())
    } else {
        generated_headers(rs.drop_first())
    }
}

/// The first `n` elements of `s`, or all of `s` when it is shorter.
pub open spec fn take_at_most<A>(s: Seq<A>, n: int) -> Seq<A> {
    if n < s.len() { s.take(n) } else { s }
}

/// The header names of an index whose data records are `rs`: the file's
/// own header names when it has any, else names generated from `rs`.
pub open spec fn headers_for(data: Seq<u8>, cfg: CsvConfig, rs: Seq<(int, Seq<Seq<u8>>)>) -> Seq<Seq<char>> {
    if named_headers(data, cfg).len() > 0 {
        named_headers(data, cfg)
    } else {
        generated_headers(rs)
    }
}

/// Every record of `rs` has at least one field.
pub open spec fn all_have_fields(rs: Seq<(int, Seq<Seq<u8>>)>) -> bool {
    forall|i: int| 0 <= i < rs.len() ==> #[trigger] rs[i].1.len() > 0
}

/// The byte offsets where the records of `rs` begin.
pub open spec fn offsets_of(rs: Seq<(int, Seq<Seq<u8>>)>) -> Seq<u64> {
    rs.map_values(|r: (int, Seq<Seq<u8>>)| r.0 as u64)
}

proof fn lemma_generated_extend(rs: Seq<(int, Seq<Seq<u8>>)>, k: int)
    requires
        0 <= k < rs.len(),
    ensures
        generated_headers(rs.take(k + 1)) == (if generated_headers(rs.take(k)).len() > 0 {
            generated_headers(rs.take(k))
        } else if rs[k].1.len() > 0 {
            column_names(rs[k].1.len())
        } else {
            Seq::<Seq<char>>::empty()
        }),
    decreases k,
{
    if k == 0 {
        assert(rs.take(1).drop_first() =~= Seq::<(int, Seq<Seq<u8>>)>::empty());
        assert(rs.take(0) =~= Seq::<(int, Seq<Seq<u8>>)>::empty());
        reveal_with_fuel(generated_headers, 2);
    } else {
        assert(rs.take(k + 1).drop_first() =~= rs.drop_first().take(k));
        assert(rs.take(k).drop_first() =~= rs.drop_first().take(k - 1));
        lemma_generated_extend(rs.drop_first(), k - 1);
        assert(rs.take(k + 1)[0] == rs[0]);
        assert(rs.take(k)[0] == rs[0]);
    }
}

/// The number that the decimal digits `s` write, most significant first
/// (each character read by its code point less that of `'0'`).
pub open spec fn digits_value(s: Seq<char>) -> int
    decreases s.len(),
{
    if s.len() == 0 {
        0
    } else {
        digits_value(s.drop_last()) * 10 + ((s.last() as u32) - 48)
    }
}

/// The decimal notation of `n` writes `n`: it is one or more of the digits
/// `'0'` to `'9'`, most significant first, with no leading zero, and read
/// back it gives `n` (so `decimal(10)` is `"10"`, not `"01"`).
pub proof fn lemma_decimal_writes(n: nat)
    ensures
        decimal(n).len() >= 1,
        forall|i: int| 0 <= i < decimal(n).len() ==> '0' <= #[trigger] decimal(n)[i] <= '9',
        n > 0 ==> decimal(n)[0] != '0',
        digits_value(decimal(n)) == n,
    decreases n,
{
    if n < 10 {
        assert(digit_char(n) as u32 == 48 + n);
        assert(decimal(n).drop_last() =~= Seq::<char>::empty());
        assert(digits_value(Seq::<char>::empty()) == 0);
        assert(digits_value(decimal(n)) == digits_value(decimal(n).drop_last()) * 10 + ((decimal(n).last() as u32) - 48));
    } else {
        lemma_decimal_writes(n / 10);
        let d = decimal(n / 10);
        assert(decimal(n) == d.push(digit_char(n % 10)));
        assert(digit_char(n % 10) as u32 == 48 + n % 10);
        assert(decimal(n).drop_last() =~= d);
        assert forall|i: int| 0 <= i < decimal(n).len() implies '0' <= #[trigger] decimal(n)[i] <= '9' by {
            if i < d.len() {
                assert(decimal(n)[i] == d[i]);
            }
        }
        assert(decimal(n)[0] == d[0]);
        assert(digits_value(decimal(n)) == digits_value(d) * 10 + ((decimal(n).last() as u32) - 48));
        assert((n / 10) * 10 + n % 10 == n) by (nonlinear_arith);
    }
}

/// The generated name of column `k` is `Column ` followed by the digits
/// that write `k`.
pub proof fn lemma_column_label_writes(k: nat)
    ensures
        column_label(k).take(7) == seq!['C', 'o', 'l', 'u', 'm', 'n', ' '],
        digits_value(column_label(k).skip(7)) == k,
        k > 0 ==> column_label(k)[7] != '0',
{
    lemma_decimal_writes(k);
    assert(column_label(k).take(7) =~= seq!['C', 'o', 'l', 'u', 'm', 'n', ' ']);
    assert(column_label(k).skip(7) =~= decimal(k));
}

/// Appends the decimal notation of `n` to `out`.
pub(crate) fn push_decimal(out: &mut Vec<char>, n: usize)
    ensures
        final(out)@ == old(out)@ + decimal(n as nat),
    decreases n,
{
    if n >= 10 {
        push_decimal(out, n / 10);
    }
    let d = (n % 10) as u8;
    let c = (48u8 + d) as char;
    assert(c == digit_char((n % 10) as nat));
    out.push(c);
    proof {
        if n < 10 {
            assert(decimal(n as nat) =~= seq![digit_char(n as nat)]);
        }
    }
}

/// The label `Column k`.
pub fn column_label_text(k: usize) -> (s: String)
    ensures
        s@ == column_label(k as nat),
{
    let mut chars: Vec<char> = vec!['C', 'o', 'l', 'u', 'm', 'n', ' '];
    push_decimal(&mut chars, k);
    string_from_chars(chars.as_slice())
}

/// Names `Column 1` to `Column n`.
fn generate_column_names(n: usize) -> (out: Vec<String>)
    ensures
        out.deep_view() == column_names(n as nat),
{
    let mut out: Vec<String> = Vec::new();
    let mut i: usize = 0;
    while i < n
        invariant
            i <= n,
            out@.len() == i,
            forall|k: int| 0 <= k < i ==> #[trigger] out@[k]@ == column_label((k + 1) as nat),
        decreases n - i,
    {
        out.push(column_label_text(i + 1));
        i = i + 1;
    }
    assert(out.deep_view() =~= column_names(n as nat));
    out
}

/// Length of the run of consecutive row numbers that begins `s`.
pub open spec fn run_len(s: Seq<usize>) -> int
    decreases s.len(),
{
    if s.len() <= 1 {
        s.len() as int
    } else if s[1] == s[0] + 1 {
        1 + run_len(s.drop_first())
    } else {
        1
    }
}

/// Reading up to `k` records with a fresh reader from byte `off` (nothing
/// when there is no offset): `None` when that read fails.
pub open spec fn run_read(data: Seq<u8>, cfg: CsvConfig, off: Option<u64>, k: int) -> Option<Seq<Seq<Seq<u8>>>> {
    match off {
        None => Some(Seq::empty()),
        Some(o) => {
            let rs = records_from(data, cfg, o as int);
            if (fails_from(data, cfg, o as int) && rs.len() < k) || !lengths_agree(rs, k, cfg.flexible) {
                None
            } else {
                Some(take_at_most(rs, k).map_values(|r: (int, Seq<Seq<u8>>)| r.1))
            }
        },
    }
}

/// Reading the rows `ids`, whose offsets are `offs`, run by run: each run
/// of consecutive row numbers is read in one go from the offset of its first
/// row. `None` when one of the reads fails.
pub open spec fn read_runs(data: Seq<u8>, cfg: CsvConfig, ids: Seq<usize>, offs: Seq<Option<u64>>) -> Option<
    Seq<Seq<Seq<u8>>>,
>
    decreases ids.len(),
{
    let l = run_len(ids);
    if ids.len() == 0 || offs.len() != ids.len() || l < 1 || l > ids.len() {
        Some(Seq::empty())
    } else {
        match run_read(data, cfg, offs[0], l) {
            None => None,
            Some(part) => match read_runs(data, cfg, ids.skip(l), offs.skip(l)) {
                None => None,
                Some(rest) => Some(part + rest),
            },
        }
    }
}

/// The offset of each of the rows `ids`, when the index has one.
pub open spec fn offsets_for(offsets: Seq<u64>, ids: Seq<usize>) -> Seq<Option<u64>> {
    ids.map_values(|r: usize| if r < offsets.len() { Some(offsets[r as int]) } else { None })
}

/// The texts of the chosen columns of a record, each with its column number;
/// a column the record lacks reads as empty text.
pub open spec fn select_cells(encoding: crate::config::CsvEncoding, fields: Seq<Seq<u8>>, columns: Seq<usize>) -> Seq<
    (usize, Seq<char>),
> {
    columns.map_values(
        |c: usize|
            (c, if c < fields.len() { decode_text(encoding, fields[c as int]) } else { Seq::<char>::empty() }),
    )
}

proof fn lemma_lengths_agree_mono(rs: Seq<(int, Seq<Seq<u8>>)>, a: int, b: int, flexible: bool)
    requires
        a <= b,
        lengths_agree(rs, b, flexible),
    ensures
        lengths_agree(rs, a, flexible),
{
}

proof fn lemma_run_len_bounds(s: Seq<usize>)
    requires
        s.len() > 0,
    ensures
        1 <= run_len(s) <= s.len(),
    decreases s.len(),
{
    if s.len() > 1 && s[1] == s[0] + 1 {
        lemma_run_len_bounds(s.drop_first());
    }
}

proof fn lemma_run_len_char(s: Seq<usize>, j: int)
    requires
        1 <= j <= s.len(),
        forall|i: int| 1 <= i < j ==> #[trigger] s[i] == s[i - 1] + 1,
        j == s.len() || s[j] != s[j - 1] + 1,
    ensures
        run_len(s) == j,
    decreases j,
{
    if j > 1 {
        assert(s[1] == s[0] + 1);
        let t = s.drop_first();
        assert forall|i: int| 1 <= i < j - 1 implies #[trigger] t[i] == t[i - 1] + 1 by {
            assert(s[i + 1] == s[i] + 1);
        }
        lemma_run_len_char(t, j - 1);
    }
}

/// Where the run of consecutive row numbers that begins at `start` ends.
fn next_run_end(ids: &[usize], start: usize) -> (end: usize)
    requires
        start < ids@.len(),
    ensures
        start < end <= ids@.len(),
        end - start == run_len(ids@.skip(start as int)),
{
    let n = ids.len();
    let mut end = start + 1;
    while end < n && ids[end - 1] < usize::MAX && ids[end] == ids[end - 1] + 1
        invariant
            n == ids@.len(),
            start < end <= ids@.len(),
            forall|i: int| start < i < end ==> #[trigger] ids@[i] == ids@[i - 1] + 1,
        decreases ids@.len() - end,
    {
        end = end + 1;
    }
    proof {
        let t = ids@.skip(start as int);
        assert forall|i: int| 1 <= i < end - start implies #[trigger] t[i] == t[i - 1] + 1 by {
            assert(ids@[start + i] == ids@[start + i - 1] + 1);
        }
        lemma_run_len_char(t, end - start);
    }
    end
}

/// Splits `rows` into runs of consecutive row numbers, as index ranges.
pub fn consecutive_runs(rows: &[usize]) -> (runs: Vec<(usize, usize)>)
    ensures
        rows@.len() == 0 <==> runs@.len() == 0,
        runs@.len() > 0 ==> runs@[0].0 == 0 && runs@.last().1 == rows@.len(),
        forall|i: int| 0 <= i < runs@.len() ==> {
            &&& #[trigger] runs@[i].0 < runs@[i].1 <= rows@.len()
            &&& runs@[i].1 - runs@[i].0 == run_len(rows@.skip(runs@[i].0 as int))
        },
        forall|i: int| 0 <= i < runs@.len() - 1 ==> #[trigger] runs@[i].1 == runs@[i + 1].0,
{
    let mut runs: Vec<(usize, usize)> = Vec::new();
    let mut start: usize = 0;
    while start < rows.len()
        invariant
            start <= rows@.len(),
            runs@.len() == 0 <==> start == 0,
            runs@.len() > 0 ==> runs@[0].0 == 0 && runs@.last().1 == start,
            forall|i: int| 0 <= i < runs@.len() ==> {
                &&& #[trigger] runs@[i].0 < runs@[i].1 <= rows@.len()
                &&& runs@[i].1 - runs@[i].0 == run_len(rows@.skip(runs@[i].0 as int))
            },
            forall|i: int| 0 <= i < runs@.len() - 1 ==> #[trigger] runs@[i].1 == runs@[i + 1].0,
        decreases rows@.len() - start,
    {
        let end = next_run_end(rows, start);
        runs.push((start, end));
        start = end;
    }
    runs
}

/// Reads up to `k` records with a fresh reader from byte `off`.
fn read_run(data: &[u8], cfg: &CsvConfig, off: u64, k: usize) -> (res: Result<Vec<Vec<Vec<u8>>>, CsvError>)
    ensures
        res is Err <==> run_read(data@, *cfg, Some(off), k as int) is None,
        res matches Ok(v) ==> run_read(data@, *cfg, Some(off), k as int) == Some(v.deep_view()),
{
    let mut out: Vec<Vec<Vec<u8>>> = Vec::new();
    if off > data.len() as u64 {
        proof {
            reveal_with_fuel(scan_from, 1);
            assert(take_at_most(records_from(data@, *cfg, off as int), k as int).map_values(
                |r: (int, Seq<Seq<u8>>)| r.1,
            ) =~= out.deep_view());
        }
        return Ok(out);
    }
    let ghost origin = off as int;
    let ghost rs = records_from(data@, *cfg, origin);
    let mut pos = off as usize;
    let mut first_len: Option<usize> = None;
    let mut j: usize = 0;
    proof {
        lemma_cursor_origin(data@, *cfg, origin);
    }
    while j < k
        invariant
            origin == off as int,
            rs == records_from(data@, *cfg, origin),
            j <= k,
            cursor_from(data@, *cfg, origin, pos as int, j as int),
            first_len_from(data@, *cfg, origin, j as int, first_len),
            lengths_agree(rs, j as int, cfg.flexible),
            out.deep_view() == rs.take(j as int).map_values(|r: (int, Seq<Seq<u8>>)| r.1),
        decreases k - j,
    {
        match read_next(data, cfg, pos, first_len, Ghost(origin), Ghost(j as int)) {
            Err(e) => {
                proof {
                    if j < rs.len() {
                        if lengths_agree(rs, k as int, cfg.flexible) {
                            lemma_lengths_agree_mono(rs, j + 1, k as int, cfg.flexible);
                        }
                    }
                }
                return Err(e);
            },
            Ok(None) => {
                proof {
                    assert(rs.take(j as int) =~= rs);
                    assert(take_at_most(rs, k as int) == rs);
                }
                return Ok(out);
            },
            Ok(Some((fields, end))) => {
                if first_len.is_none() {
                    first_len = Some(fields.len());
                }
                let ghost old_out = out.deep_view();
                out.push(fields);
                proof {
                    assert(rs.take(j + 1) =~= rs.take(j as int).push(rs[j as int]));
                    assert(out.deep_view() =~= old_out.push(rs[j as int].1));
                    assert(out.deep_view() =~= rs.take(j + 1).map_values(|r: (int, Seq<Seq<u8>>)| r.1));
                }
                pos = end;
                j = j + 1;
            },
        }
    }
    proof {
        if (k as int) == rs.len() {
            assert(rs.take(k as int) =~= rs);
        }
    }
    Ok(out)
}

/// Reads the rows `ids` run by run; `offs` holds each row's offset.
fn read_rows_by_runs(data: &[u8], cfg: &CsvConfig, ids: &[usize], offs: &[Option<u64>]) -> (res: Result<
    Vec<Vec<Vec<u8>>>,
    CsvError,
>)
    requires
        ids@.len() == offs@.len(),
    ensures
        res is Err <==> read_runs(data@, *cfg, ids@, offs@) is None,
        res matches Ok(v) ==> read_runs(data@, *cfg, ids@, offs@) == Some(v.deep_view()),
{
    let mut out: Vec<Vec<Vec<u8>>> = Vec::new();
    let mut start: usize = 0;
    proof {
        assert(ids@.skip(0) =~= ids@);
        assert(offs@.skip(0) =~= offs@);
        if let Some(all) = read_runs(data@, *cfg, ids@, offs@) {
            assert(out.deep_view() + all =~= all);
        }
    }
    while start < ids.len()
        invariant
            ids@.len() == offs@.len(),
            start <= ids@.len(),
            read_runs(data@, *cfg, ids@, offs@) matches Some(all) ==> read_runs(
                data@,
                *cfg,
                ids@.skip(start as int),
                offs@.skip(start as int),
            ) matches Some(rest) && all == out.deep_view() + rest,
            read_runs(data@, *cfg, ids@, offs@) is None ==> read_runs(
                data@,
                *cfg,
                ids@.skip(start as int),
                offs@.skip(start as int),
            ) is None,
            read_runs(data@, *cfg, ids@.skip(start as int), offs@.skip(start as int)) is Some ==> read_runs(
                data@,
                *cfg,
                ids@,
                offs@,
            ) is Some,
        decreases ids@.len() - start,
    {
        let end = next_run_end(ids, start);
        let ghost t = ids@.skip(start as int);
        let ghost o = offs@.skip(start as int);
        proof {
            lemma_run_len_bounds(t);
            assert(t.skip(end - start) =~= ids@.skip(end as int));
            assert(o.skip(end - start) =~= offs@.skip(end as int));
            assert(o[0] == offs@[start as int]);
        }
        let part = match offs[start] {
            None => Vec::new(),
            Some(off) => match read_run(data, cfg, off, end - start) {
                Ok(v) => v,
                Err(e) => {
                    return Err(e);
                },
            },
        };
        let ghost old_out = out.deep_view();
        let mut part = part;
        out.append(&mut part);
        proof {
            assert(out.deep_view() =~= old_out + run_read(data@, *cfg, o[0], end - start).unwrap());
        }
        start = end;
    }
    proof {
        assert(ids@.skip(start as int).len() == 0);
        assert(read_runs(data@, *cfg, ids@.skip(start as int), offs@.skip(start as int)) == Some(
            Seq::<Seq<Seq<u8>>>::empty(),
        ));
        assert(out.deep_view() + Seq::<Seq<Seq<u8>>>::empty() =~= out.deep_view());
    }
    Ok(out)
}

/// The row index of one CSV file.
#[derive(Clone, Debug)]
pub struct CsvIndex {
    /// Where the file lives.
    pub path: String,
    /// How the file is read.
    pub config: CsvConfig,
    /// Column names.
    pub headers: Vec<String>,
    /// Byte offset of each data record.
    pub row_offsets: Vec<u64>,
}

/// Reads the skipped records and the header record. On success the pass
/// stands at the first data record, at the returned byte position, with the
/// returned field count of its first record.
fn prepare_headers(data: &[u8], cfg: &CsvConfig) -> (res: Result<(Vec<String>, usize, Option<usize>), CsvError>)
    ensures
        res is Err <==> pass_fails(data@, *cfg, preamble_len(*cfg)),
        res matches Ok((h, pos, first_len)) ==> {
            &&& h.deep_view() == named_headers(data@, *cfg)
            &&& cursor_at(data@, *cfg, pos as int, data_start(data@, *cfg))
            &&& first_len_of(data@, *cfg, data_start(data@, *cfg), first_len)
            &&& lengths_agree(records(data@, *cfg), data_start(data@, *cfg), cfg.flexible)
        },
{
    let ghost rs = records(data@, *cfg);
    let mut pos: usize = 0;
    let mut first_len: Option<usize> = None;
    let ghost mut read: int = 0;
    proof {
        lemma_cursor_start(data@, *cfg);
    }
    let mut i: usize = 0;
    while i < cfg.skip_lines
        invariant
            rs == records(data@, *cfg),
            i <= cfg.skip_lines,
            read == i,
            cursor_at(data@, *cfg, pos as int, read),
            first_len_of(data@, *cfg, read, first_len),
            lengths_agree(rs, read, cfg.flexible),
        decreases cfg.skip_lines - i,
    {
        match read_next(data, cfg, pos, first_len, Ghost(0), Ghost(read)) {
            Err(e) => {
                return Err(e);
            },
            Ok(None) => {
                assert(named_headers(data@, *cfg) =~= Seq::<Seq<char>>::empty());
                assert(!pass_fails(data@, *cfg, preamble_len(*cfg)));
                return Ok((Vec::new(), pos, first_len));
            },
            Ok(Some((fields, end))) => {
                if first_len.is_none() {
                    first_len = Some(fields.len());
                }
                pos = end;
                proof {
                    read = read + 1;
                }
                i = i + 1;
            },
        }
    }
    if cfg.has_headers {
        match read_next(data, cfg, pos, first_len, Ghost(0), Ghost(read)) {
            Err(e) => {
                return Err(e);
            },
            Ok(None) => {
                assert(named_headers(data@, *cfg) =~= Seq::<Seq<char>>::empty());
                return Ok((Vec::new(), pos, first_len));
            },
            Ok(Some((fields, end))) => {
                if first_len.is_none() {
                    first_len = Some(fields.len());
                }
                let headers = cfg.decode_record(&fields);
                return Ok((headers, end, first_len));
            },
        }
    }
    assert(named_headers(data@, *cfg) =~= Seq::<Seq<char>>::empty());
    Ok((Vec::new(), pos, first_len))
}

/// Progress of a pass that has read `read` records, where the data records
/// begin at `ds`: the offsets and generated names gathered so far.
spec fn loop_state_ok(
    data: Seq<u8>,
    cfg: CsvConfig,
    read: int,
    offsets: Seq<u64>,
    headers: Seq<Seq<char>>,
) -> bool {
    let ds = data_start(data, cfg);
    let drs = data_records(data, cfg);
    &&& ds <= read <= records(data, cfg).len()
    &&& offsets == offsets_of(drs.take(read - ds))
    &&& headers == headers_for(data, cfg, drs.take(read - ds))
}

/// Records one more data record in the loop state.
proof fn lemma_loop_step(data: Seq<u8>, cfg: CsvConfig, read: int, offsets: Seq<u64>, headers: Seq<Seq<char>>)
    requires
        loop_state_ok(data, cfg, read, offsets, headers),
        read < records(data, cfg).len(),
    ensures
        ({
            let r = records(data, cfg)[read];
            let new_headers = if headers.len() > 0 {
                headers
            } else if r.1.len() > 0 {
                column_names(r.1.len())
            } else {
                headers
            };
            loop_state_ok(data, cfg, read + 1, offsets.push(r.0 as u64), new_headers)
        }),
{
    let ds = data_start(data, cfg);
    let drs = data_records(data, cfg);
    let rs = records(data, cfg);
    let k = read - ds;
    assert(drs[k] == rs[read]);
    assert(drs.take(k + 1) =~= drs.take(k).push(drs[k]));
    assert(offsets_of(drs.take(k + 1)) =~= offsets_of(drs.take(k)).push(rs[read].0 as u64));
    lemma_generated_extend(drs, k);
    let r = rs[read];
    let named = named_headers(data, cfg);
    let g0 = generated_headers(drs.take(k));
    let g1 = generated_headers(drs.take(k + 1));
    if named.len() > 0 {
        assert(headers == named);
        assert(headers_for(data, cfg, drs.take(k + 1)) == named);
    } else {
        assert(headers == g0);
        assert(headers_for(data, cfg, drs.take(k + 1)) == g1);
        if g0.len() > 0 {
            assert(g1 == g0);
        } else if r.1.len() > 0 {
            assert(g1 == column_names(r.1.len()));
        } else {
            assert(g1 == Seq::<Seq<char>>::empty());
            assert(headers =~= Seq::<Seq<char>>::empty());
        }
    }
}

proof fn lemma_loop_start(data: Seq<u8>, cfg: CsvConfig, headers: Seq<Seq<char>>)
    requires
        headers == named_headers(data, cfg),
    ensures
        loop_state_ok(data, cfg, data_start(data, cfg), Seq::empty(), headers),
{
    let drs = data_records(data, cfg);
    assert(drs.take(0) =~= Seq::<(int, Seq<Seq<u8>>)>::empty());
    assert(offsets_of(drs.take(0)) =~= Seq::<u64>::empty());
    assert(generated_headers(drs.take(0)) == Seq::<Seq<char>>::empty());
    if named_headers(data, cfg).len() == 0 {
        assert(headers =~= Seq::<Seq<char>>::empty());
    }
}

proof fn lemma_loop_end(data: Seq<u8>, cfg: CsvConfig, read: int)
    requires
        data_start(data, cfg) <= read == records(data, cfg).len(),
    ensures
        data_records(data, cfg).take(read - data_start(data, cfg)) == data_records(data, cfg),
{
    assert(data_records(data, cfg).take(read - data_start(data, cfg)) =~= data_records(data, cfg));
}

/// A progress report of the index build: `chunk` is the non-empty run of
/// at most 10,000 record offsets that ends with the `rows`-th data record,
/// `bytes` is a position in the data and `total` its size.
pub open spec fn progress_call_ok(data: Seq<u8>, cfg: CsvConfig, chunk: Seq<u64>, rows: usize, bytes: u64, total: u64) -> bool {
    let offs = offsets_of(data_records(data, cfg));
    &&& total == data.len()
    &&& bytes <= total
    &&& 0 < chunk.len() <= 10_000
    &&& chunk.len() <= rows <= offs.len()
    &&& chunk == offs.subrange(rows - chunk.len(), rows as int)
}

impl CsvIndex {
    /// Indexes at most `limit` data records, for a quick first look.
    pub fn preview(path: String, data: &[u8], config: CsvConfig, limit: usize) -> (res: Result<Self, CsvError>)
        ensures
            res is Err <==> pass_fails(data@, config, preamble_len(config) + limit),
            res matches Ok(idx) ==> {
                let drs = take_at_most(data_records(data@, config), limit as int);
                &&& idx.path == path
                &&& idx.config == config
                &&& idx.row_offsets@ == offsets_of(drs)
                &&& idx.headers.deep_view() == headers_for(data@, config, drs)
            },
    {
        let ghost rs = records(data@, config);
        let (mut headers, mut pos, mut first_len) = match prepare_headers(data, &config) {
            Ok(r) => r,
            Err(e) => {
                return Err(e);
            },
        };
        let ghost ds = data_start(data@, config);
        let ghost mut read: int = ds;
        let mut row_offsets: Vec<u64> = Vec::new();
        proof {
            lemma_loop_start(data@, config, headers.deep_view());
        }
        while row_offsets.len() < limit
            invariant
                rs == records(data@, config),
                ds == data_start(data@, config),
                cursor_at(data@, config, pos as int, read),
                first_len_of(data@, config, read, first_len),
                lengths_agree(rs, read, config.flexible),
                loop_state_ok(data@, config, read, row_offsets@, headers.deep_view()),
                row_offsets@.len() == read - ds,
                row_offsets@.len() <= limit,
                !pass_fails(data@, config, preamble_len(config)),
            decreases limit - row_offsets@.len(),
        {
            match read_next(data, &config, pos, first_len, Ghost(0), Ghost(read)) {
                Err(e) => {
                    return Err(e);
                },
                Ok(None) => {
                    proof {
                        lemma_loop_end(data@, config, read);
                    }
                    return Ok(CsvIndex { path, config, headers, row_offsets });
                },
                Ok(Some((fields, end))) => {
                    proof {
                        lemma_loop_step(data@, config, read, row_offsets@, headers.deep_view());
                    }
                    if first_len.is_none() {
                        first_len = Some(fields.len());
                    }
                    row_offsets.push(pos as u64);
                    if headers.len() == 0 && fields.len() > 0 {
                        headers = generate_column_names(fields.len());
                    }
                    pos = end;
                    proof {
                        read = read + 1;
                    }
                },
            }
        }
        proof {
            let drs = data_records(data@, config);
            if limit as int >= drs.len() {
                assert(drs.take(limit as int) =~= drs);
            }
        }
        Ok(CsvIndex { path, config, headers, row_offsets })
    }

    /// Indexes every data record of the file.
    pub fn build(path: String, data: &[u8], config: CsvConfig) -> (res: Result<Self, CsvError>)
        ensures
            res is Err <==> whole_pass_fails(data@, config),
            res matches Ok(idx) ==> {
                &&& idx.path == path
                &&& idx.config == config
                &&& idx.row_offsets@ == offsets_of(data_records(data@, config))
                &&& idx.headers.deep_view() == headers_for(data@, config, data_records(data@, config))
                &&& all_have_fields(data_records(data@, config))
            },
    {
        Self::build_with_progress(path, data, config, |_chunk: Vec<u64>, _rows: usize, _bytes: u64, _total: u64| {})
    }

    /// Indexes every data record of the file, handing `on_progress` the
    /// offsets found since its last call, the number of rows indexed, the
    /// byte position reached and the size of the data: after the first 200
    /// rows, after every 10,000 further offsets, and once at the end for
    /// what remains.
    pub fn build_with_progress<F>(path: String, data: &[u8], config: CsvConfig, on_progress: F) -> (res: Result<
        Self,
        CsvError,
    >) where F: Fn(Vec<u64>, usize, u64, u64)
        requires
            forall|chunk: Vec<u64>, rows: usize, bytes: u64, total: u64|
                progress_call_ok(data@, config, chunk@, rows, bytes, total) ==> #[trigger] on_progress.requires(
                    (chunk, rows, bytes, total),
                ),
        ensures
            res is Err <==> whole_pass_fails(data@, config),
            res matches Ok(idx) ==> {
                &&& idx.path == path
                &&& idx.config == config
                &&& idx.row_offsets@ == offsets_of(data_records(data@, config))
                &&& idx.headers.deep_view() == headers_for(data@, config, data_records(data@, config))
                &&& all_have_fields(data_records(data@, config))
            },
    {
        let ghost rs = records(data@, config);
        let total_bytes = data.len() as u64;
        let (mut headers, mut pos, mut first_len) = match prepare_headers(data, &config) {
            Ok(r) => r,
            Err(e) => {
                return Err(e);
            },
        };
        let ghost ds = data_start(data@, config);
        let ghost mut read: int = ds;
        let mut row_offsets: Vec<u64> = Vec::new();
        let mut progress_chunk: Vec<u64> = Vec::new();
        proof {
            lemma_loop_start(data@, config, headers.deep_view());
        }
        loop
            invariant
                forall|chunk: Vec<u64>, rows: usize, bytes: u64, total: u64|
                    progress_call_ok(data@, config, chunk@, rows, bytes, total) ==> #[trigger] on_progress.requires(
                        (chunk, rows, bytes, total),
                    ),
                total_bytes == data@.len(),
                progress_chunk@.len() < 10_000,
                progress_chunk@.len() <= row_offsets@.len(),
                progress_chunk@ == row_offsets@.subrange(row_offsets@.len() - progress_chunk@.len(), row_offsets@.len() as int),
                forall|j: int| ds <= j < read ==> #[trigger] rs[j].1.len() > 0,
                rs == records(data@, config),
                ds == data_start(data@, config),
                cursor_at(data@, config, pos as int, read),
                first_len_of(data@, config, read, first_len),
                lengths_agree(rs, read, config.flexible),
                loop_state_ok(data@, config, read, row_offsets@, headers.deep_view()),
                row_offsets@.len() == read - ds,
                !pass_fails(data@, config, preamble_len(config)),
            decreases rs.len() - read,
        {
            match read_next(data, &config, pos, first_len, Ghost(0), Ghost(read)) {
                Err(e) => {
                    return Err(e);
                },
                Ok(None) => {
                    proof {
                        lemma_loop_end(data@, config, read);
                        let drs = data_records(data@, config);
                        assert forall|q: int| 0 <= q < drs.len() implies #[trigger] drs[q].1.len() > 0 by {
                            assert(drs[q] == rs[ds + q]);
                        }
                    }
                    if progress_chunk.len() > 0 {
                        proof {
                            let drs = data_records(data@, config);
                            assert(loop_state_ok(data@, config, read, row_offsets@, headers.deep_view()));
                            assert(row_offsets@ == offsets_of(drs.take(read - ds)));
                            assert(read - ds <= drs.len());
                            assert(progress_chunk@ =~= offsets_of(drs).subrange(
                                row_offsets@.len() - progress_chunk@.len(),
                                row_offsets@.len() as int,
                            ));
                        }
                        on_progress(progress_chunk, row_offsets.len(), pos as u64, total_bytes);
                    }
                    return Ok(CsvIndex { path, config, headers, row_offsets });
                },
                Ok(Some((fields, end))) => {
                    proof {
                        lemma_loop_step(data@, config, read, row_offsets@, headers.deep_view());
                    }
                    if first_len.is_none() {
                        first_len = Some(fields.len());
                    }
                    row_offsets.push(pos as u64);
                    progress_chunk.push(pos as u64);
                    if headers.len() == 0 && fields.len() > 0 {
                        headers = generate_column_names(fields.len());
                    }
                    pos = end;
                    proof {
                        read = read + 1;
                    }
                    let indexed_rows = row_offsets.len();
                    if indexed_rows == 200 || progress_chunk.len() >= 10_000 {
                        proof {
                            let drs = data_records(data@, config);
                            assert(loop_state_ok(data@, config, read, row_offsets@, headers.deep_view()));
                            assert(row_offsets@ == offsets_of(drs.take(read - ds)));
                            assert(read - ds <= drs.len());
                            assert(progress_chunk@ =~= offsets_of(drs).subrange(
                                row_offsets@.len() - progress_chunk@.len(),
                                row_offsets@.len() as int,
                            ));
                        }
                        on_progress(progress_chunk, indexed_rows, pos as u64, total_bytes);
                        progress_chunk = Vec::new();
                    }
                },
            }
        }
    }
}

/// One row of a read plan: its row number and the offset of its record.
#[derive(Clone, Copy, Debug)]
pub struct PlannedRow {
    pub row_idx: usize,
    pub offset: u64,
}

/// The rows that a reader is to fetch, with their offsets looked up.
#[derive(Clone, Debug)]
pub struct CsvReadPlan {
    path: String,
    config: CsvConfig,
    rows: Vec<PlannedRow>,
}

/// The rows of `ids` that the index has an offset for, with that offset.
pub open spec fn plan_rows(offsets: Seq<u64>, ids: Seq<usize>) -> Seq<PlannedRow>
    decreases ids.len(),
{
    if ids.len() == 0 {
        Seq::empty()
    } else {
        let rest = plan_rows(offsets, ids.drop_last());
        let r = ids.last();
        if r < offsets.len() {
            rest.push(PlannedRow { row_idx: r, offset: offsets[r as int] })
        } else {
            rest
        }
    }
}

/// Decodes the chosen columns of a record; a missing column reads as empty.
pub fn decode_selected_cells(config: &CsvConfig, rec: &Vec<Vec<u8>>, columns: &[usize]) -> (cells: Vec<(usize, String)>)
    ensures
        cells.deep_view() == select_cells(config.encoding, rec.deep_view(), columns@),
{
    let mut cells: Vec<(usize, String)> = Vec::new();
    let mut i: usize = 0;
    while i < columns.len()
        invariant
            0 <= i <= columns@.len(),
            cells@.len() == i,
            forall|k: int| 0 <= k < i ==> #[trigger] cells.deep_view()[k] == select_cells(
                config.encoding,
                rec.deep_view(),
                columns@,
            )[k],
        decreases columns@.len() - i,
    {
        let col = columns[i];
        let value = if col < rec.len() {
            proof {
                assert(rec@[col as int].deep_view() =~= rec@[col as int]@);
            }
            config.decode_field(rec[col].as_slice())
        } else {
            String::new()
        };
        let ghost old_cells = cells.deep_view();
        cells.push((col, value));
        proof {
            assert forall|k: int| 0 <= k < i + 1 implies #[trigger] cells.deep_view()[k] == select_cells(
                config.encoding,
                rec.deep_view(),
                columns@,
            )[k] by {
                if k < i {
                    assert(cells.deep_view()[k] == old_cells[k]);
                }
            }
        }
        i = i + 1;
    }
    assert(cells.deep_view() =~= select_cells(config.encoding, rec.deep_view(), columns@));
    cells
}

/// Decodes every record of `recs`.
fn decode_records(config: &CsvConfig, recs: &Vec<Vec<Vec<u8>>>) -> (out: Vec<Vec<String>>)
    ensures
        out.deep_view() == recs.deep_view().map_values(|f: Seq<Seq<u8>>| decode_fields(config.encoding, f)),
{
    let mut out: Vec<Vec<String>> = Vec::new();
    let mut i: usize = 0;
    while i < recs.len()
        invariant
            0 <= i <= recs@.len(),
            out@.len() == i,
            forall|k: int| 0 <= k < i ==> #[trigger] out.deep_view()[k] == decode_fields(
                config.encoding,
                recs.deep_view()[k],
            ),
        decreases recs@.len() - i,
    {
        let row = config.decode_record(&recs[i]);
        let ghost old_out = out.deep_view();
        out.push(row);
        proof {
            assert forall|k: int| 0 <= k < i + 1 implies #[trigger] out.deep_view()[k] == decode_fields(
                config.encoding,
                recs.deep_view()[k],
            ) by {
                if k < i {
                    assert(out.deep_view()[k] == old_out[k]);
                }
            }
        }
        i = i + 1;
    }
    assert(out.deep_view() =~= recs.deep_view().map_values(|f: Seq<Seq<u8>>| decode_fields(config.encoding, f)));
    out
}

/// Decodes the chosen columns of every record of `recs`.
fn decode_records_columns(config: &CsvConfig, recs: &Vec<Vec<Vec<u8>>>, columns: &[usize]) -> (out: Vec<
    Vec<(usize, String)>,
>)
    ensures
        out.deep_view() == recs.deep_view().map_values(
            |f: Seq<Seq<u8>>| select_cells(config.encoding, f, columns@),
        ),
{
    let mut out: Vec<Vec<(usize, String)>> = Vec::new();
    let mut i: usize = 0;
    while i < recs.len()
        invariant
            0 <= i <= recs@.len(),
            out@.len() == i,
            forall|k: int| 0 <= k < i ==> #[trigger] out.deep_view()[k] == select_cells(
                config.encoding,
                recs.deep_view()[k],
                columns@,
            ),
        decreases recs@.len() - i,
    {
        let row = decode_selected_cells(config, &recs[i], columns);
        let ghost old_out = out.deep_view();
        out.push(row);
        proof {
            assert forall|k: int| 0 <= k < i + 1 implies #[trigger] out.deep_view()[k] == select_cells(
                config.encoding,
                recs.deep_view()[k],
                columns@,
            ) by {
                if k < i {
                    assert(out.deep_view()[k] == old_out[k]);
                }
            }
        }
        i = i + 1;
    }
    assert(out.deep_view() =~= recs.deep_view().map_values(
        |f: Seq<Seq<u8>>| select_cells(config.encoding, f, columns@),
    ));
    out
}

/// The page of `source_rows` from `start`, at most `page_size` long.
pub open spec fn page_ids(source_rows: Seq<usize>, start: int, page_size: int) -> Seq<usize> {
    let end = if start + page_size < source_rows.len() { start + page_size } else { source_rows.len() as int };
    source_rows.subrange(start, end)
}

/// Looks up the offset of each row in `ids`.
fn lookup_offsets(offsets: &Vec<u64>, ids: &[usize]) -> (offs: Vec<Option<u64>>)
    ensures
        offs@ == offsets_for(offsets@, ids@),
{
    let mut offs: Vec<Option<u64>> = Vec::new();
    let mut i: usize = 0;
    while i < ids.len()
        invariant
            0 <= i <= ids@.len(),
            offs@ == offsets_for(offsets@, ids@.take(i as int)),
        decreases ids@.len() - i,
    {
        let r = ids[i];
        let o = if r < offsets.len() { Some(offsets[r]) } else { None };
        offs.push(o);
        i = i + 1;
        assert(offs@ =~= offsets_for(offsets@, ids@.take(i as int)));
    }
    assert(ids@.take(i as int) =~= ids@);
    offs
}

impl CsvIndex {
    /// Reads and decodes the rows `source_rows[start..start + page_size]`
    /// (clipped to the list), run by run of consecutive rows.
    pub fn read_page(&self, data: &[u8], source_rows: &[usize], start: usize, page_size: usize) -> (res: Result<
        Vec<Vec<String>>,
        CsvError,
    >)
        requires
            start <= source_rows@.len(),
            start + page_size <= usize::MAX,
        ensures
            ({
                let ids = page_ids(source_rows@, start as int, page_size as int);
                let raw = read_runs(data@, self.config, ids, offsets_for(self.row_offsets@, ids));
                &&& res is Err <==> raw is None
                &&& res matches Ok(rows) ==> rows.deep_view() == raw.unwrap().map_values(
                    |f: Seq<Seq<u8>>| decode_fields(self.config.encoding, f),
                )
            }),
    {
        let end = if start + page_size < source_rows.len() { start + page_size } else { source_rows.len() };
        let requested_rows = &source_rows[start..end];
        let offs = lookup_offsets(&self.row_offsets, requested_rows);
        let raw = read_rows_by_runs(data, &self.config, requested_rows, offs.as_slice())?;
        Ok(decode_records(&self.config, &raw))
    }

    /// Like `read_page`, but decodes only the chosen columns of each row.
    pub fn read_page_columns(
        &self,
        data: &[u8],
        source_rows: &[usize],
        columns: &[usize],
        start: usize,
        page_size: usize,
    ) -> (res: Result<Vec<Vec<(usize, String)>>, CsvError>)
        requires
            start <= source_rows@.len(),
            start + page_size <= usize::MAX,
        ensures
            ({
                let ids = page_ids(source_rows@, start as int, page_size as int);
                let raw = read_runs(data@, self.config, ids, offsets_for(self.row_offsets@, ids));
                &&& res is Err <==> raw is None
                &&& res matches Ok(rows) ==> rows.deep_view() == raw.unwrap().map_values(
                    |f: Seq<Seq<u8>>| select_cells(self.config.encoding, f, columns@),
                )
            }),
    {
        let end = if start + page_size < source_rows.len() { start + page_size } else { source_rows.len() };
        let requested_rows = &source_rows[start..end];
        let offs = lookup_offsets(&self.row_offsets, requested_rows);
        let raw = read_rows_by_runs(data, &self.config, requested_rows, offs.as_slice())?;
        Ok(decode_records_columns(&self.config, &raw, columns))
    }

    /// A plan for reading `source_rows`: the rows the index has an offset
    /// for, each with that offset.
    pub fn read_plan(&self, source_rows: &[usize]) -> (plan: CsvReadPlan)
        ensures
            plan.spec_path() == self.path,
            plan.spec_config() == self.config,
            plan.spec_rows() == plan_rows(self.row_offsets@, source_rows@),
    {
        let mut rows: Vec<PlannedRow> = Vec::new();
        let mut i: usize = 0;
        while i < source_rows.len()
            invariant
                0 <= i <= source_rows@.len(),
                rows@ == plan_rows(self.row_offsets@, source_rows@.take(i as int)),
            decreases source_rows@.len() - i,
        {
            let r = source_rows[i];
            if r < self.row_offsets.len() {
                rows.push(PlannedRow { row_idx: r, offset: self.row_offsets[r] });
            }
            i = i + 1;
            proof {
                assert(source_rows@.take(i as int).drop_last() =~= source_rows@.take(i - 1));
            }
        }
        assert(source_rows@.take(i as int) =~= source_rows@);
        CsvReadPlan { path: self.path.clone(), config: self.config, rows }
    }

    /// All row numbers of the index, in order.
    pub fn all_rows(&self) -> (rows: Vec<usize>)
        ensures
            rows@ == Seq::new(self.row_offsets@.len(), |i: int| i as usize),
    {
        let n = self.row_offsets.len();
        let mut rows: Vec<usize> = Vec::new();
        let mut i: usize = 0;
        while i < n
            invariant
                n == self.row_offsets@.len(),
                i <= n,
                rows@ == Seq::new(i as nat, |k: int| k as usize),
            decreases n - i,
        {
            rows.push(i);
            i = i + 1;
            assert(rows@ =~= Seq::new(i as nat, |k: int| k as usize));
        }
        rows
    }
}

impl CsvReadPlan {
    pub closed spec fn spec_path(&self) -> String {
        self.path
    }

    pub closed spec fn spec_config(&self) -> CsvConfig {
        self.config
    }

    pub closed spec fn spec_rows(&self) -> Seq<PlannedRow> {
        self.rows@
    }

    /// Where the planned file lives.
    pub fn path(&self) -> (p: &String)
        ensures
            *p == self.spec_path(),
    {
        &self.path
    }

    /// Reads the chosen columns of every planned row.
    pub fn read_columns(&self, data: &[u8], columns: &[usize]) -> (res: Result<Vec<Vec<(usize, String)>>, CsvError>)
        ensures
            ({
                let prs = self.spec_rows();
                let raw = read_runs(
                    data@,
                    self.spec_config(),
                    prs.map_values(|p: PlannedRow| p.row_idx),
                    prs.map_values(|p: PlannedRow| Some(p.offset)),
                );
                &&& res is Err <==> raw is None
                &&& res matches Ok(rows) ==> rows.deep_view() == raw.unwrap().map_values(
                    |f: Seq<Seq<u8>>| select_cells(self.spec_config().encoding, f, columns@),
                )
            }),
    {
        let n = self.rows.len();
        proof {
            assert(self.rows@.subrange(0, n as int) =~= self.rows@);
        }
        self.read_columns_range_with_file(data, columns, 0, n)
    }

    /// Reads the chosen columns of the planned rows `start..end` (clipped to
    /// the plan), run by run of consecutive rows.
    pub fn read_columns_range_with_file(&self, data: &[u8], columns: &[usize], start: usize, end: usize) -> (res:
        Result<Vec<Vec<(usize, String)>>, CsvError>)
        ensures
            ({
                let prs = self.spec_rows();
                let e = if end < prs.len() { end as int } else { prs.len() as int };
                let part = if start < e { prs.subrange(start as int, e) } else { Seq::<PlannedRow>::empty() };
                let raw = read_runs(
                    data@,
                    self.spec_config(),
                    part.map_values(|p: PlannedRow| p.row_idx),
                    part.map_values(|p: PlannedRow| Some(p.offset)),
                );
                &&& res is Err <==> raw is None
                &&& res matches Ok(rows) ==> rows.deep_view() == raw.unwrap().map_values(
                    |f: Seq<Seq<u8>>| select_cells(self.spec_config().encoding, f, columns@),
                )
            }),
    {
        let end = if end < self.rows.len() { end } else { self.rows.len() };
        let mut ids: Vec<usize> = Vec::new();
        let mut offs: Vec<Option<u64>> = Vec::new();
        if start >= end {
            proof {
                let part = Seq::<PlannedRow>::empty();
                assert(part.map_values(|p: PlannedRow| p.row_idx) =~= Seq::<usize>::empty());
                assert(read_runs(data@, self.config, Seq::<usize>::empty(), Seq::<Option<u64>>::empty()) == Some(
                    Seq::<Seq<Seq<u8>>>::empty(),
                ));
            }
            return Ok(Vec::new());
        }
        let ghost part = self.rows@.subrange(start as int, end as int);
        let mut i = start;
        while i < end
            invariant
                start < end <= self.rows@.len(),
                start <= i <= end,
                part == self.rows@.subrange(start as int, end as int),
                ids@ == part.take(i - start).map_values(|p: PlannedRow| p.row_idx),
                offs@ == part.take(i - start).map_values(|p: PlannedRow| Some(p.offset)),
            decreases end - i,
        {
            let p = self.rows[i];
            ids.push(p.row_idx);
            offs.push(Some(p.offset));
            i = i + 1;
            proof {
                assert(part[i - start - 1] == p);
                assert(part.take(i - start) =~= part.take(i - start - 1).push(p));
                assert(ids@ =~= part.take(i - start).map_values(|p: PlannedRow| p.row_idx));
                assert(offs@ =~= part.take(i - start).map_values(|p: PlannedRow| Some(p.offset)));
            }
        }
        proof {
            assert(part.take(end - start) =~= part);
        }
        let raw = read_rows_by_runs(data, &self.config, ids.as_slice(), offs.as_slice())?;
        Ok(decode_records_columns(&self.config, &raw, columns))
    }
}


/// A pass started where one of its records began, with a reader that has
/// read unless it is the first record, yields the same records from there
/// on, and ends the same way.
proof fn lemma_scan_tail(data: Seq<u8>, pos: int, started: bool, delimiter: u8, quote: u8, i: int)
    requires
        0 <= i < scan_from(data, pos, started, delimiter, quote).0.len(),
    ensures
        scan_from(data, scan_from(data, pos, started, delimiter, quote).0[i].0, if i == 0 { started } else { true }, delimiter, quote) == (
            scan_from(data, pos, started, delimiter, quote).0.skip(i),
            scan_from(data, pos, started, delimiter, quote).1,
        ),
        0 <= scan_from(data, pos, started, delimiter, quote).0[i].0 < data.len(),
        i == 0 ==> scan_from(data, pos, started, delimiter, quote).0[i].0 == pos,
        i > 0 ==> scan_from(data, pos, started, delimiter, quote).0[i].0 > pos,
    decreases data.len() - pos,
{
    let s = scan_from(data, pos, started, delimiter, quote);
    let r = read_step(data.subrange(pos, data.len() as int), started, delimiter, quote)->Some_0;
    let rest = scan_from(data, pos + r.2, true, delimiter, quote);
    assert(s.0 == seq![(pos, r.1)] + rest.0);
    if i == 0 {
        assert(s.0.skip(0) =~= s.0);
    } else {
        assert(s.0[i] == rest.0[i - 1]);
        lemma_scan_tail(data, pos + r.2, true, delimiter, quote, i - 1);
        assert(s.0.skip(i) =~= rest.0.skip(i - 1));
    }
}

/// The row numbers of a run are consecutive.
proof fn lemma_run_len_consecutive(s: Seq<usize>, k: int)
    requires
        0 <= k < run_len(s),
    ensures
        s[k] == s[0] + k,
    decreases s.len(),
{
    lemma_run_len_bounds(s);
    if k > 0 {
        let t = s.drop_first();
        assert(s[1] == s[0] + 1);
        lemma_run_len_consecutive(t, k - 1);
        assert(t[k - 1] == s[k] && t[0] == s[1]);
    }
}

/// What reading rows `ids` through the record offsets gives, run by run.
proof fn lemma_read_runs_back(data: Seq<u8>, cfg: CsvConfig, ids: Seq<usize>)
    requires
        !whole_pass_fails(data, cfg),
        no_inner_bom(data),
        data.len() <= u64::MAX,
        forall|k: int| 0 <= k < ids.len() ==> #[trigger] ids[k] < data_records(data, cfg).len(),
    ensures
        read_runs(data, cfg, ids, offsets_for(offsets_of(data_records(data, cfg)), ids)) == Some(
            ids.map_values(|r: usize| data_records(data, cfg)[r as int].1),
        ),
    decreases ids.len(),
{
    let rs = records(data, cfg);
    let ds = data_start(data, cfg);
    let drs = data_records(data, cfg);
    let offs = offsets_for(offsets_of(drs), ids);
    let want = ids.map_values(|r: usize| drs[r as int].1);
    if ids.len() == 0 {
        assert(want =~= Seq::<Seq<Seq<u8>>>::empty());
    } else {
        lemma_run_len_bounds(ids);
        let l = run_len(ids);
        let first = ids[0];
        let at = ds + first;
        lemma_scan_tail(data, 0, false, cfg.delimiter, cfg.quote, at);
        let o = rs[at].0;
        if at > 0 {
            assert(!starts_with_bom(data.subrange(o, data.len() as int)));
            lemma_fresh_reads_as_started(data, o, cfg.delimiter, cfg.quote);
        }
        assert(drs[first as int] == rs[at]);
        assert(offs[0] == Some(o as u64));
        let from = records_from(data, cfg, o);
        assert(from == rs.skip(at));
        lemma_run_len_consecutive(ids, l - 1);
        assert(ids[l - 1] < drs.len());
        assert(from.len() >= l);
        assert(lengths_agree(from, l, cfg.flexible)) by {
            if !cfg.flexible {
                assert forall|i: int| 0 <= i < l && i < from.len() implies #[trigger] from[i].1.len() == from[0].1.len() by {
                    assert(from[i] == rs[at + i]);
                    assert(from[0] == rs[at]);
                    assert(rs[at + i].1.len() == rs[0].1.len());
                    assert(rs[at].1.len() == rs[0].1.len());
                }
            }
        }
        let part = take_at_most(from, l).map_values(|r: (int, Seq<Seq<u8>>)| r.1);
        assert(run_read(data, cfg, offs[0], l) == Some(part));
        assert forall|k: int| 0 <= k < l implies #[trigger] part[k] == want[k] by {
            lemma_run_len_consecutive(ids, k);
            assert(from[k] == rs[at + k]);
            assert(drs[ids[k] as int] == rs[ds + ids[k]]);
        }
        let tail = ids.skip(l);
        assert(offs.skip(l) =~= offsets_for(offsets_of(drs), tail));
        assert forall|k: int| 0 <= k < tail.len() implies #[trigger] tail[k] < drs.len() by {
            assert(tail[k] == ids[k + l]);
        }
        lemma_read_runs_back(data, cfg, tail);
        let rest = tail.map_values(|r: usize| drs[r as int].1);
        assert(part.len() == l);
        assert(want =~= part + rest) by {
            assert forall|k: int| l <= k < want.len() implies want[k] == rest[k - l] by {
                assert(tail[k - l] == ids[k]);
            }
        }
    }
}

/// An index reads back what it indexed: reading rows `ids` of the data
/// through the record offsets that `build` keeps gives exactly those data
/// records, in the order asked, when the whole file reads without error and
/// no byte-order mark begins after its first byte (a record read afresh at
/// its offset drops such a mark, which the pass kept as data).
pub proof fn lemma_read_back(data: Seq<u8>, cfg: CsvConfig, ids: Seq<usize>)
    requires
        !whole_pass_fails(data, cfg),
        no_inner_bom(data),
        data.len() <= u64::MAX,
        forall|k: int| 0 <= k < ids.len() ==> #[trigger] ids[k] < data_records(data, cfg).len(),
    ensures
        read_runs(data, cfg, ids, offsets_for(offsets_of(data_records(data, cfg)), ids)) == Some(
            ids.map_values(|r: usize| data_records(data, cfg)[r as int].1),
        ),
{
    lemma_read_runs_back(data, cfg, ids);
}


/// A preview is the start of the full index: the record offsets that a
/// preview of `limit` rows keeps are the first offsets (up to `limit`) of
/// the index of the whole file, and with at least one row previewed both
/// have the same column names (every record read has a field, as `build`
/// states).
pub proof fn lemma_preview_is_prefix(data: Seq<u8>, cfg: CsvConfig, limit: int)
    requires
        0 <= limit,
    ensures
        ({
            let full = offsets_of(data_records(data, cfg));
            let part = offsets_of(take_at_most(data_records(data, cfg), limit));
            &&& part.len() <= full.len()
            &&& part.len() == (if limit < full.len() { limit } else { full.len() as int })
            &&& part == full.take(part.len() as int)
        }),
        limit >= 1 && all_have_fields(data_records(data, cfg)) ==> headers_for(
            data,
            cfg,
            take_at_most(data_records(data, cfg), limit),
        ) == headers_for(data, cfg, data_records(data, cfg)),
{
    let drs = data_records(data, cfg);
    let full = offsets_of(drs);
    let part = offsets_of(take_at_most(drs, limit));
    assert(part =~= full.take(part.len() as int));
    if limit >= 1 && all_have_fields(drs) && drs.len() > 0 {
        let t = take_at_most(drs, limit);
        assert(t[0] == drs[0]);
        assert(drs[0].1.len() > 0);
        assert(generated_headers(t) == column_names(drs[0].1.len()));
        assert(generated_headers(drs) == column_names(drs[0].1.len()));
    }
}

} // verus!
