//! The records that exporting a set of rows writes: the chosen column names,
//! then each row that reads back, in the chosen columns.

use vstd::prelude::*;

use crate::config::{decode_fields, CsvConfig};
use crate::index::{offsets_for, page_ids, read_runs, CsvIndex};

verus! {

/// The texts of `cells` in `columns`; a column past the end reads as empty.
pub open spec fn project(cells: Seq<Seq<char>>, columns: Seq<usize>) -> Seq<Seq<char>> {
    columns.map_values(|c: usize| if c < cells.len() { cells[c as int] } else { Seq::<char>::empty() })
}

/// Row `r` as an export reads it: the texts of its record, or nothing when
/// the read fails or finds no record.
pub open spec fn exported_row(data: Seq<u8>, cfg: CsvConfig, offsets: Seq<u64>, r: usize) -> Option<Seq<Seq<char>>> {
    match read_runs(data, cfg, seq![r], offsets_for(offsets, seq![r])) {
        Some(rs) => if rs.len() > 0 {
            Some(decode_fields(cfg.encoding, rs.last()))
        } else {
            None
        },
        None => None,
    }
}

/// The exported records of the rows `ids`, in order, in `columns`; rows that
/// do not read back are left out.
pub open spec fn exported_rows(
    data: Seq<u8>,
    cfg: CsvConfig,
    offsets: Seq<u64>,
    ids: Seq<usize>,
    columns: Seq<usize>,
) -> Seq<Seq<Seq<char>>>
    decreases ids.len(),
{
    if ids.len() == 0 {
        Seq::empty()
    } else {
        let rest = exported_rows(data, cfg, offsets, ids.drop_last(), columns);
        match exported_row(data, cfg, offsets, ids.last()) {
            Some(cells) => rest.push(project(cells, columns)),
            None => rest,
        }
    }
}

/// The texts of `cells` in `columns`, empty text for a column past the end.
fn project_cells(cells: &Vec<String>, columns: &[usize]) -> (out: Vec<String>)
    ensures
        out.deep_view() == project(cells.deep_view(), columns@),
{
    let ghost cv = cells.deep_view();
    let mut out: Vec<String> = Vec::new();
    let mut i: usize = 0;
    while i < columns.len()
        invariant
            cv == cells.deep_view(),
            cv.len() == cells@.len(),
            0 <= i <= columns@.len(),
            out.deep_view() == project(cv, columns@.take(i as int)),
        decreases columns@.len() - i,
    {
        let c = columns[i];
        let ghost before = out.deep_view();
        let text = if c < cells.len() {
            cells[c].clone()
        } else {
            String::new()
        };
        out.push(text);
        i = i + 1;
        proof {
            assert(out.deep_view() =~= before.push(text@));
            assert(project(cv, columns@.take(i as int)) =~= project(cv, columns@.take(i - 1)).push(text@));
        }
    }
    assert(columns@.take(i as int) =~= columns@);
    out
}

/// The records an export of `row_indices` in `visible_columns` writes: the
/// column names first, then each row that reads back from `data`.
pub fn export_records(index: &CsvIndex, data: &[u8], row_indices: &[usize], visible_columns: &[usize]) -> (out: Vec<
    Vec<String>,
>)
    ensures
        out.deep_view() == seq![project(index.headers.deep_view(), visible_columns@)] + exported_rows(
            data@,
            index.config,
            index.row_offsets@,
            row_indices@,
            visible_columns@,
        ),
{
    let ghost cfg = index.config;
    let ghost offs = index.row_offsets@;
    let header = project_cells(&index.headers, visible_columns);
    let mut out: Vec<Vec<String>> = Vec::new();
    out.push(header);
    let mut k: usize = 0;
    proof {
        assert(row_indices@.take(0) =~= Seq::<usize>::empty());
        assert(out.deep_view() =~= seq![project(index.headers.deep_view(), visible_columns@)]);
    }
    while k < row_indices.len()
        invariant
            cfg == index.config,
            offs == index.row_offsets@,
            0 <= k <= row_indices@.len(),
            out.deep_view() == seq![project(index.headers.deep_view(), visible_columns@)] + exported_rows(
                data@,
                cfg,
                offs,
                row_indices@.take(k as int),
                visible_columns@,
            ),
        decreases row_indices@.len() - k,
    {
        let r = row_indices[k];
        let ids: Vec<usize> = vec![r];
        let ghost before = out.deep_view();
        proof {
            assert(ids@ =~= seq![r]);
            assert(ids@.subrange(0, 1) =~= seq![r]);
            assert(row_indices@.take(k + 1).drop_last() =~= row_indices@.take(k as int));
            assert(row_indices@.take(k + 1).last() == r);
        }
        let ghost raw = read_runs(data@, cfg, seq![r], offsets_for(offs, seq![r]));
        proof {
            assert(page_ids(ids@, 0, 1) =~= seq![r]);
        }
        match index.read_page(data, ids.as_slice(), 0, 1) {
            Ok(rows) => {
                let mut rows = rows;
                let ghost all = rows.deep_view();
                proof {
                    assert(all.len() == raw.unwrap().len());
                }
                if let Some(row) = rows.pop() {
                    proof {
                        assert(all[all.len() - 1] == row.deep_view());
                        assert(all[all.len() - 1] == decode_fields(cfg.encoding, raw.unwrap().last()));
                    }
                    let rec = project_cells(&row, visible_columns);
                    out.push(rec);
                    proof {
                        assert(out.deep_view() =~= before.push(rec.deep_view()));
                    }
                }
            },
            Err(_) => {},
        }
        k = k + 1;
    }
    assert(row_indices@.take(k as int) =~= row_indices@);
    out
}

} // verus!
