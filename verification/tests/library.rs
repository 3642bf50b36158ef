use std::collections::{HashMap, VecDeque};

use csvfastview::filters::{estimated_rows_for_filter, rows_for_filter};
use csvfastview::index::consecutive_runs;
use csvfastview::matching::matching_value_indices;
use csvfastview::requests::{absorb_job, pair_loaded, read_order, request_job, take_leading_reads};
use csvfastview::row_cache::WORKER_ROW_CACHE_LIMIT;
use csvfastview::viewer::visible_column_indices;
use csvfastview::{
    export_records, sniff_csv, sniff_csv_with_skip, CsvConfig, CsvEncoding, CsvError, CsvIndex,
    FilterRows, Job, RowCache, RowSelection, UniqueFilter,
};
use encoding_rs::{BIG5, GB18030, SHIFT_JIS};

fn build(data: &[u8], cfg: CsvConfig) -> CsvIndex {
    CsvIndex::build("t.csv".to_string(), data, cfg).expect("build index")
}

fn strings(values: &[&str]) -> Vec<String> {
    values.iter().map(|v| v.to_string()).collect()
}

#[test]
fn valid_utf8_is_detected_as_utf8() {
    let s = sniff_csv("名前,年齢\nanna,18\n".as_bytes());
    assert_eq!(s.encoding, CsvEncoding::Utf8);
    assert_eq!(s.delimiter, b',');
    assert!(s.has_headers);
}

#[test]
fn latin1_bytes_are_detected_as_latin1() {
    let s = sniff_csv(b"caf\xe9,na\xefve\nx,y\n");
    assert_eq!(s.encoding, CsvEncoding::Iso8859_1);
}

#[test]
fn numeric_lines_have_no_header_and_tab_wins() {
    let s = sniff_csv(b"1\t2\t3\n4\t5\t6\n");
    assert_eq!(s.delimiter, b'\t');
    assert!(!s.has_headers);
}

#[test]
fn blank_lines_and_carriage_returns_are_skipped() {
    let s = sniff_csv(b"\r\n\n a;b\r\nx;y\r\n");
    assert_eq!(s.delimiter, b';');
    assert!(s.has_headers);
}

#[test]
fn a_single_line_has_no_header() {
    let s = sniff_csv_with_skip(b"name|age\n", 0);
    assert_eq!(s.delimiter, b'|');
    assert!(!s.has_headers);
}

#[test]
fn index_reads_back_rows_in_the_order_asked() {
    let data = b"a,b\n1,2\n3,4\n5,6\n";
    let idx = build(data, CsvConfig::default());
    let rows = idx.read_page(data, &[2, 0, 1], 0, 3).expect("read page");
    assert_eq!(rows, vec![vec!["5", "6"], vec!["1", "2"], vec!["3", "4"]]);
    let cols = idx.read_page_columns(data, &[1], &[1, 5], 0, 1).expect("read columns");
    assert_eq!(cols, vec![vec![(1, "4".to_string()), (5, String::new())]]);
}

#[test]
fn preview_keeps_the_first_offsets_of_the_index() {
    let data = b"a,b\n1,2\n3,4\n5,6\n";
    let full = build(data, CsvConfig::default());
    let preview =
        CsvIndex::preview("t.csv".to_string(), data, CsvConfig::default(), 2).expect("preview");
    assert_eq!(preview.row_offsets, full.row_offsets[..2].to_vec());
    assert_eq!(preview.headers, full.headers);
}

#[test]
fn missing_headers_are_named_by_column_number() {
    let data = b"1,2,3\n4,5,6\n";
    let cfg = CsvConfig {
        has_headers: false,
        ..CsvConfig::default()
    };
    let idx = build(data, cfg);
    assert_eq!(idx.headers, vec!["Column 1", "Column 2", "Column 3"]);
    assert_eq!(idx.row_offsets.len(), 2);
}

#[test]
fn strict_mode_rejects_records_of_other_lengths() {
    let data = b"a,b\n1\n";
    let cfg = CsvConfig {
        flexible: false,
        ..CsvConfig::default()
    };
    match CsvIndex::build("t.csv".to_string(), data, cfg) {
        Err(CsvError::UnequalLengths { expected_len, len }) => {
            assert_eq!(expected_len, 2);
            assert_eq!(len, 1);
        }
        _ => panic!("unequal record lengths"),
    }
}

#[test]
fn invalid_utf8_decodes_to_replacement_characters() {
    let data = b"h\n\xff\n";
    let idx = build(data, CsvConfig::default());
    let rows = idx.read_page(data, &idx.all_rows(), 0, 1).expect("read");
    assert_eq!(rows[0][0], "\u{FFFD}");
}

#[test]
fn other_encodings_decode_their_text() {
    for (enc, encoding) in [
        (GB18030, CsvEncoding::Gb18030),
        (BIG5, CsvEncoding::Big5),
        (SHIFT_JIS, CsvEncoding::ShiftJis),
    ] {
        let (bytes, _, _) = enc.encode("名,値\n東京,1\n");
        let data: &[u8] = bytes.as_ref();
        let cfg = CsvConfig {
            encoding,
            ..CsvConfig::default()
        };
        let idx = build(data, cfg);
        assert_eq!(idx.headers[0], "名");
        let rows = idx.read_page(data, &idx.all_rows(), 0, 1).expect("read");
        assert_eq!(rows[0][0], "東京");
    }
    let data = b"n\ncaf\xe9\n";
    let cfg = CsvConfig {
        encoding: CsvEncoding::Iso8859_1,
        ..CsvConfig::default()
    };
    let idx = build(data, cfg);
    let rows = idx.read_page(data, &idx.all_rows(), 0, 1).expect("read");
    assert_eq!(rows[0][0], "café");
}

#[test]
fn export_writes_names_then_rows_in_chosen_columns() {
    let data = b"a,b\n1,2\n3,4\n";
    let idx = build(data, CsvConfig::default());
    let out = export_records(&idx, data, &[1, 7, 0], &[1, 3]);
    assert_eq!(
        out,
        vec![
            vec!["b".to_string(), String::new()],
            vec!["4".to_string(), String::new()],
            vec!["2".to_string(), String::new()],
        ]
    );
}

#[test]
fn unique_index_lists_values_in_order_with_their_rows() {
    let data = b"c\nb\na\nb\n";
    let idx = build(data, CsvConfig::default());
    let u = idx
        .index_unique_values_with_progress(data, 0, |_, _| false)
        .expect("unique");
    let values: Vec<(String, usize)> = u.values.iter().map(|v| (v.value.clone(), v.count)).collect();
    assert_eq!(values, vec![("a".to_string(), 1), ("b".to_string(), 2)]);
    assert_eq!(u.rows_for_value_index(1), vec![0, 2]);
    assert_eq!(u.rows_for_value_index(9), Vec::<usize>::new());
    assert_eq!(u.total_rows(), 3);
}

#[test]
fn filter_estimates_count_the_rows_kept() {
    let data = b"c\nx\ny\nx\nz\n";
    let idx = build(data, CsvConfig::default());
    let u = idx
        .index_unique_values_with_progress(data, 0, |_, _| false)
        .expect("unique");
    let keep = UniqueFilter::Include(strings(&["x", "nope", "x"]));
    let drop = UniqueFilter::Exclude(strings(&["x"]));
    assert_eq!(estimated_rows_for_filter(&u, &keep), 2);
    assert_eq!(estimated_rows_for_filter(&u, &drop), 2);
    match rows_for_filter(&u, &keep) {
        RowSelection::Rows { total, rows } => {
            assert_eq!(total, 4);
            assert_eq!(rows, vec![0, 2]);
        }
        _ => panic!("the kept rows are the shorter side"),
    }
    match rows_for_filter(&u, &drop) {
        RowSelection::AllExcept { total, excluded } => {
            assert_eq!(total, 4);
            assert_eq!(excluded, vec![0, 2]);
        }
        _ => panic!("the left-out rows are listed"),
    }
}

#[test]
fn intersections_and_compact_forms_keep_the_same_rows() {
    let a = RowSelection::Rows {
        total: 10,
        rows: vec![1, 2, 3, 8],
    };
    let b = RowSelection::AllExcept {
        total: 10,
        excluded: vec![2, 9],
    };
    match a.intersect(b).into_filter_rows() {
        FilterRows::Rows(rows) => assert_eq!(rows, vec![1, 3, 8]),
        _ => panic!("three of ten rows are listed"),
    }
    let c = RowSelection::AllExcept {
        total: 4,
        excluded: vec![0],
    };
    let d = RowSelection::AllExcept {
        total: 4,
        excluded: vec![1, 2],
    };
    match c.intersect(d).into_filter_rows() {
        FilterRows::Rows(rows) => assert_eq!(rows, vec![3]),
        _ => panic!("one of four rows is kept"),
    }
    match RowSelection::All(5).into_filter_rows() {
        FilterRows::All(n) => assert_eq!(n, 5),
        _ => panic!("every row"),
    }
}

#[test]
fn worker_cache_keeps_at_most_its_limit_oldest_first_out() {
    let mut cache = RowCache::new();
    for r in 0..=WORKER_ROW_CACHE_LIMIT {
        cache.insert(r, vec![r.to_string()]);
    }
    assert!(cache.get(0).is_none());
    assert_eq!(cache.get(1), Some(&vec!["1".to_string()]));
    cache.insert(1, vec!["again".to_string()]);
    assert_eq!(cache.get(1), Some(&vec!["again".to_string()]));
    cache.insert(WORKER_ROW_CACHE_LIMIT + 1, Vec::new());
    assert!(cache.get(1).is_none());
    assert_eq!(cache.get(2), Some(&vec!["2".to_string()]));
    cache.clear();
    assert!(cache.get(1).is_none());
}

fn read_job(id: u64) -> Job {
    Job::ReadRows {
        request_id: id,
        rows: vec![(0, id as usize)],
        columns: vec![0],
    }
}

#[test]
fn only_the_latest_queued_row_read_is_kept() {
    let mut pending: VecDeque<Job> = VecDeque::new();
    pending.push_back(read_job(1));
    pending.push_back(read_job(2));
    pending.push_back(Job::IndexUnique { col: 3 });
    pending.push_back(read_job(4));
    let latest = take_leading_reads(&mut pending).expect("two reads queued");
    assert_eq!(latest.0, 2);
    assert_eq!(pending.len(), 2);
    assert!(take_leading_reads(&mut pending).is_none());

    let mut latest = Some(latest);
    assert!(absorb_job(&mut latest, &mut pending, read_job(5)));
    assert_eq!(latest.as_ref().map(|r| r.0), Some(5));
    assert!(!absorb_job(&mut latest, &mut pending, Job::IndexUnique { col: 1 }));
    assert_eq!(pending.len(), 3);
    match request_job(latest) {
        Some(Job::ReadRows { request_id, .. }) => assert_eq!(request_id, 5),
        _ => panic!("a read request"),
    }
}

#[test]
fn rows_after_the_first_chunk_are_read_by_source_row() {
    let mut rows: Vec<(usize, usize)> = (0..32).map(|i| (i, 100 - i)).collect();
    rows.push((40, 9));
    rows.push((41, 3));
    rows.push((42, 5));
    let ordered = read_order(rows.clone());
    assert_eq!(ordered[..32], rows[..32]);
    assert_eq!(ordered[32..], [(41, 3), (42, 5), (40, 9)]);
    let short = vec![(1, 9), (0, 3)];
    assert_eq!(read_order(short.clone()), short);
}

#[test]
fn loaded_cells_are_paired_and_ordered_by_position() {
    let chunk = vec![(5, 50), (2, 20), (9, 90)];
    let cells = vec![
        vec![(0, "e".to_string())],
        vec![(0, "b".to_string())],
    ];
    let loaded = pair_loaded(&chunk, cells);
    assert_eq!(
        loaded,
        vec![(2, vec![(0, "b".to_string())]), (5, vec![(0, "e".to_string())])]
    );
}

#[test]
fn value_list_narrows_to_matching_values() {
    let data = b"c\nShanghai\nbeijing\nSHENZHEN\n";
    let idx = build(data, CsvConfig::default());
    let u = idx
        .index_unique_values_with_progress(data, 0, |_, _| false)
        .expect("unique");
    assert_eq!(matching_value_indices(&u.values, "sh", "sh"), vec![0, 1]);
    assert_eq!(matching_value_indices(&u.values, "", ""), vec![0, 1, 2]);
}

#[test]
fn settings_come_from_the_first_bytes_typed() {
    let cfg = CsvConfig::from_inputs("", ";x", 2, false, true, CsvEncoding::Big5);
    assert_eq!(cfg.delimiter, b',');
    assert_eq!(cfg.quote, b';');
    assert_eq!(cfg.skip_lines, 2);
    assert!(!cfg.has_headers);
    assert!(cfg.flexible);
    assert_eq!(cfg.encoding, CsvEncoding::Big5);
}

#[test]
fn visible_columns_are_listed_in_order() {
    assert_eq!(visible_column_indices(&[true, false, true, true]), vec![0, 2, 3]);
    assert_eq!(visible_column_indices(&[]), Vec::<usize>::new());
}

#[test]
fn unique_values_report_counts() {
    let data = b"k\nb\na\nb\n";
    let idx = build(data, CsvConfig::default());
    let values = idx
        .unique_values_with_progress(data, 0, |_, _| false)
        .expect("unique");
    assert_eq!(values.len(), 2);
    assert_eq!(values[0].value, "a");
    assert_eq!(values[1].count, 2);
    let _: HashMap<usize, usize> = HashMap::new();
}

#[test]
fn consecutive_rows_are_grouped_into_runs() {
    assert_eq!(consecutive_runs(&[3, 4, 5, 9, 1, 2]), vec![(0, 3), (3, 4), (4, 6)]);
    assert_eq!(consecutive_runs(&[]), Vec::<(usize, usize)>::new());
}

#[test]
fn a_read_plan_reads_chosen_columns_of_its_rows() {
    let data = b"a,b,c\n1,2,3\n4,5,6\n7,8,9\n";
    let idx = build(data, CsvConfig::default());
    let plan = idx.read_plan(&[2, 0, 9]);
    assert_eq!(plan.path(), "t.csv");
    let cells = plan.read_columns(data, &[2, 0]).expect("read");
    assert_eq!(
        cells,
        vec![
            vec![(2, "9".to_string()), (0, "7".to_string())],
            vec![(2, "3".to_string()), (0, "1".to_string())],
        ]
    );
    let part = plan
        .read_columns_range_with_file(data, &[1], 1, 5)
        .expect("read");
    assert_eq!(part, vec![vec![(1, "2".to_string())]]);
}
