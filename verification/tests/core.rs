use csvfastview::{sniff_csv, sniff_csv_with_skip, CsvConfig, CsvEncoding, CsvIndex, FilterMode};
use encoding_rs::GBK;

fn build(data: &[u8], cfg: CsvConfig) -> CsvIndex {
    CsvIndex::build("test.csv".to_string(), data, cfg).expect("build index")
}

#[test]
fn builds_index_and_reads_page() {
    let data = b"name,age\nanna,18\nbob,20\n";
    let cfg = CsvConfig::default();
    let idx = build(data, cfg);
    assert_eq!(idx.headers, vec!["name", "age"]);
    assert_eq!(idx.row_offsets.len(), 2);

    let rows = idx.read_page(data, &idx.all_rows(), 0, 2).expect("read page");
    assert_eq!(rows[0][0], "anna");
    assert_eq!(rows[1][1], "20");
}

#[test]
fn supports_custom_delimiter_and_filters() {
    let data = b"city|cat\nshanghai|a\nshenzhen|b\nshanghai|c\n";
    let cfg = CsvConfig {
        delimiter: b'|',
        ..CsvConfig::default()
    };
    let idx = build(data, cfg);

    let contains = idx
        .filter_rows(data, 0, "shang", FilterMode::Contains)
        .expect("contains");
    assert_eq!(contains.len(), 2);

    let equals = idx
        .filter_rows(data, 0, "shenzhen", FilterMode::Equals)
        .expect("equals");
    assert_eq!(equals.len(), 1);

    let unique = idx
        .filter_rows(data, 0, "", FilterMode::UniqueByValue)
        .expect("unique by value");
    assert_eq!(unique.len(), 2);
}

#[test]
fn supports_gbk_decoding() {
    let txt = "城市,值\n上海,1\n深圳,2\n";
    let (bytes, _, _) = GBK.encode(txt);
    let data: &[u8] = bytes.as_ref();
    let cfg = CsvConfig {
        encoding: CsvEncoding::Gbk,
        ..CsvConfig::default()
    };
    let idx = build(data, cfg);
    assert_eq!(idx.headers[0], "城市");

    let rows = idx.read_page(data, &idx.all_rows(), 0, 2).expect("read page");
    assert_eq!(rows[0][0], "上海");

    let hit = idx
        .filter_rows(data, 0, "深圳", FilterMode::Contains)
        .expect("filter");
    assert_eq!(hit.len(), 1);
}

#[test]
fn sniffs_delimiter_and_headers() {
    let sniff = sniff_csv(b"name;age;city\nalice;18;sh\nbob;20;sz\n");
    assert_eq!(sniff.delimiter, b';');
    assert!(sniff.has_headers);
}

#[test]
fn skips_records_before_headers_and_data() {
    let data = b"comment one\ncomment two\nname,age\nanna,18\nbob,20\n";
    let cfg = CsvConfig {
        skip_lines: 2,
        ..CsvConfig::default()
    };
    let idx = build(data, cfg);
    assert_eq!(idx.headers, vec!["name", "age"]);
    assert_eq!(idx.row_offsets.len(), 2);

    let rows = idx.read_page(data, &idx.all_rows(), 0, 2).expect("read page");
    assert_eq!(rows[0], vec!["anna", "18"]);
    assert_eq!(rows[1], vec!["bob", "20"]);
}

#[test]
fn sniffs_after_skipped_lines() {
    let sniff = sniff_csv_with_skip(b"metadata\nname|age|city\nalice|18|sh\nbob|20|sz\n", 1);
    assert_eq!(sniff.delimiter, b'|');
    assert!(sniff.has_headers);
}

#[test]
fn a_mark_after_the_first_byte_is_data() {
    let data = "a\n\u{feff}\nb\n".as_bytes();
    let cfg = CsvConfig {
        has_headers: false,
        ..CsvConfig::default()
    };
    let idx = build(data, cfg);
    assert_eq!(idx.row_offsets.len(), 3);
    let values = idx.filter_rows(data, 0, "\u{feff}", FilterMode::Equals).expect("equals");
    assert_eq!(values, vec![1]);

    let data = "a\n\u{feff}b\n".as_bytes();
    let idx = build(data, cfg);
    assert_eq!(idx.row_offsets.len(), 2);
    let hits = idx.filter_rows(data, 0, "\u{feff}b", FilterMode::Equals).expect("equals");
    assert_eq!(hits, vec![1]);
}

#[test]
fn a_mark_at_the_start_is_dropped() {
    let data = "\u{feff}name\nx\n".as_bytes();
    let idx = build(data, CsvConfig::default());
    assert_eq!(idx.headers, vec!["name"]);
    assert_eq!(idx.row_offsets.len(), 1);
}

#[test]
fn progress_chunks_add_up_to_the_offsets() {
    let mut text = String::from("n\n");
    for i in 0..25_000 {
        text.push_str(&format!("{i}\n"));
    }
    let data = text.as_bytes();
    let calls = std::cell::RefCell::new(Vec::new());
    let idx = CsvIndex::build_with_progress("t.csv".to_string(), data, CsvConfig::default(), |chunk, rows, bytes, total| {
        calls.borrow_mut().push((chunk, rows, bytes, total));
    })
    .expect("build");
    let calls = calls.into_inner();
    let mut all = Vec::new();
    for (chunk, rows, bytes, total) in &calls {
        assert!(!chunk.is_empty() && chunk.len() <= 10_000);
        all.extend_from_slice(chunk);
        assert_eq!(*rows, all.len());
        assert!(*bytes <= *total);
        assert_eq!(*total, data.len() as u64);
    }
    assert_eq!(all, idx.row_offsets);
    assert_eq!(calls.last().unwrap().1, idx.row_offsets.len());
}

#[test]
fn a_stopped_scan_keeps_the_rows_before_the_stop() {
    let mut text = String::from("n\n");
    for _ in 0..25_000 {
        text.push_str("x\n");
    }
    let data = text.as_bytes();
    let idx = build(data, CsvConfig::default());
    let hits = idx
        .filter_rows_with_progress(data, 0, "x", FilterMode::Equals, |done, _| done >= 20_000)
        .expect("filter");
    assert_eq!(hits.len(), 20_000);
}
