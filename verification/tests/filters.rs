use std::collections::HashMap;
use std::sync::Arc;

use csvfastview::rows::subtract_sorted_rows;

use csvfastview::{filter_from_unique_indexes, CsvConfig, CsvIndex, FilterRows, UniqueColumnIndex, UniqueFilter};

fn index_first_column(data: &[u8]) -> (CsvIndex, HashMap<usize, Arc<UniqueColumnIndex>>) {
    let index = CsvIndex::build("test.csv".to_string(), data, CsvConfig::default()).expect("build index");
    let unique_index = index
        .index_unique_values_with_progress(data, 0, |_, _| false)
        .expect("unique index");
    let mut unique_indexes = HashMap::new();
    unique_indexes.insert(0, Arc::new(unique_index));
    (index, unique_indexes)
}

fn strings(values: &[&str]) -> Vec<String> {
    values.iter().map(|v| v.to_string()).collect()
}

#[test]
fn filters_from_unique_index_with_include_and_exclude_modes() {
    let data = b"city,kind\nshanghai,a\nbeijing,b\nshenzhen,c\nshanghai,d\n";
    let (index, unique_indexes) = index_first_column(data);

    let mut selected = HashMap::new();
    selected.insert(0, UniqueFilter::Include(strings(&["shanghai"])));
    let kept_rows = filter_from_unique_indexes(
        index.row_offsets.len(),
        &unique_indexes,
        &selected,
        |_, _| false,
    )
    .expect("include filter");
    match kept_rows {
        FilterRows::Rows(rows) => assert_eq!(rows, vec![0, 3]),
        FilterRows::AllExcept { .. } => {
            panic!("include filter should return explicit included rows")
        }
        FilterRows::All(_) => panic!("include filter should not return all rows"),
    }

    let mut exclude = HashMap::new();
    exclude.insert(0, UniqueFilter::Exclude(strings(&["shanghai"])));
    let exclude_rows = filter_from_unique_indexes(
        index.row_offsets.len(),
        &unique_indexes,
        &exclude,
        |_, _| false,
    )
    .expect("exclude filter");
    match exclude_rows {
        FilterRows::AllExcept { total, excluded } => {
            assert_eq!(total, 4);
            assert_eq!(excluded, vec![0, 3]);
        }
        FilterRows::Rows(_) => panic!("exclude filter should stay compact"),
        FilterRows::All(_) => panic!("exclude filter should not return all rows"),
    }
}

#[test]
fn exclude_filter_returns_rows_when_excluded_side_is_larger() {
    let data = b"city\nkeep\nskip1\nskip2\nskip3\n";
    let (index, unique_indexes) = index_first_column(data);

    let mut exclude = HashMap::new();
    exclude.insert(0, UniqueFilter::Exclude(strings(&["skip1", "skip2", "skip3"])));
    let rows = filter_from_unique_indexes(
        index.row_offsets.len(),
        &unique_indexes,
        &exclude,
        |_, _| false,
    )
    .expect("exclude filter");

    match rows {
        FilterRows::Rows(rows) => assert_eq!(rows, vec![0]),
        FilterRows::AllExcept { .. } => panic!("large exclusion should compact to rows"),
        FilterRows::All(_) => panic!("exclude filter should not return all rows"),
    }
}

#[test]
fn include_filter_returns_all_except_when_selected_side_is_larger() {
    let data = b"city\nkeep1\nkeep2\nkeep3\nskip\n";
    let (index, unique_indexes) = index_first_column(data);

    let mut selected = HashMap::new();
    selected.insert(0, UniqueFilter::Include(strings(&["keep1", "keep2", "keep3"])));
    let rows = filter_from_unique_indexes(
        index.row_offsets.len(),
        &unique_indexes,
        &selected,
        |_, _| false,
    )
    .expect("include filter");

    match rows {
        FilterRows::AllExcept { total, excluded } => {
            assert_eq!(total, 4);
            assert_eq!(excluded, vec![3]);
        }
        FilterRows::Rows(_) => panic!("large include should compact to all-except"),
        FilterRows::All(_) => panic!("include filter should not return all rows"),
    }
}

#[test]
fn include_filter_builds_smaller_excluded_side_directly() {
    let data = b"city\nkeep1\nkeep2\nkeep3\nkeep4\nskip\n";
    let (index, unique_indexes) = index_first_column(data);

    let mut selected = HashMap::new();
    selected.insert(
        0,
        UniqueFilter::Include(strings(&["keep1", "keep2", "keep3", "keep4"])),
    );
    let rows = filter_from_unique_indexes(
        index.row_offsets.len(),
        &unique_indexes,
        &selected,
        |_, _| false,
    )
    .expect("include filter");

    match rows {
        FilterRows::AllExcept { total, excluded } => {
            assert_eq!(total, 5);
            assert_eq!(excluded, vec![4]);
        }
        FilterRows::Rows(rows) => panic!("large include should not build rows: {rows:?}"),
        FilterRows::All(_) => panic!("include filter should not return all rows"),
    }
}

#[test]
fn empty_filters_pass_every_row() {
    let data = b"city\na\nb\n";
    let (index, unique_indexes) = index_first_column(data);
    let mut filters = HashMap::new();
    filters.insert(0, UniqueFilter::Include(Vec::new()));
    let rows = filter_from_unique_indexes(index.row_offsets.len(), &unique_indexes, &filters, |_, _| false)
        .expect("no filter");
    match rows {
        FilterRows::All(n) => assert_eq!(n, 2),
        _ => panic!("an empty filter keeps every row"),
    }
}

#[test]
fn filter_on_column_without_index_is_an_error() {
    let data = b"city,kind\na,x\nb,y\n";
    let (index, unique_indexes) = index_first_column(data);
    let mut filters = HashMap::new();
    filters.insert(1, UniqueFilter::Include(strings(&["x"])));
    let err = filter_from_unique_indexes(index.row_offsets.len(), &unique_indexes, &filters, |_, _| false)
        .err()
        .expect("missing index");
    assert_eq!(err, "Column 1 unique values are not indexed");
}

#[test]
fn cancelled_filtering_returns_no_rows() {
    let data = b"city\na\nb\n";
    let (index, unique_indexes) = index_first_column(data);
    let mut filters = HashMap::new();
    filters.insert(0, UniqueFilter::Include(strings(&["a"])));
    let rows = filter_from_unique_indexes(index.row_offsets.len(), &unique_indexes, &filters, |_, _| true)
        .expect("cancelled");
    match rows {
        FilterRows::Rows(rows) => assert!(rows.is_empty()),
        _ => panic!("a cancelled filter returns no rows"),
    }
}

#[test]
fn two_filters_keep_rows_passing_both() {
    let data = b"city,kind\nsh,a\nbj,a\nsh,b\nsz,a\n";
    let index = CsvIndex::build("t.csv".to_string(), data, CsvConfig::default()).expect("build index");
    let mut unique_indexes = HashMap::new();
    for col in 0..2 {
        let u = index
            .index_unique_values_with_progress(data, col, |_, _| false)
            .expect("unique index");
        unique_indexes.insert(col, Arc::new(u));
    }
    let mut filters = HashMap::new();
    filters.insert(0, UniqueFilter::Exclude(strings(&["bj"])));
    filters.insert(1, UniqueFilter::Include(strings(&["a"])));
    let rows = filter_from_unique_indexes(4, &unique_indexes, &filters, |_, _| false).expect("filters");
    match rows {
        FilterRows::Rows(rows) => assert_eq!(rows, vec![0, 3]),
        FilterRows::AllExcept { excluded, .. } => assert_eq!(excluded, vec![1, 2]),
        FilterRows::All(_) => panic!("rows are filtered"),
    }
}

#[test]
fn keeping_and_leaving_out_the_same_values_split_the_rows() {
    let data = b"city\na\nb\na\nc\nb\n";
    let (index, unique_indexes) = index_first_column(data);
    let total = index.row_offsets.len();
    let listed = strings(&["a", "c"]);
    let mut keep = HashMap::new();
    keep.insert(0, UniqueFilter::Include(listed.clone()));
    let mut leave = HashMap::new();
    leave.insert(0, UniqueFilter::Exclude(listed));
    let kept = filter_from_unique_indexes(total, &unique_indexes, &keep, |_, _| false).expect("keep");
    let left = filter_from_unique_indexes(total, &unique_indexes, &leave, |_, _| false).expect("leave");
    let contains = |rows: &FilterRows, r: usize| match rows {
        FilterRows::All(n) => r < *n,
        FilterRows::AllExcept { total, excluded } => r < *total && !excluded.contains(&r),
        FilterRows::Rows(rows) => rows.contains(&r),
    };
    for r in 0..total {
        assert_ne!(contains(&kept, r), contains(&left, r));
    }
}

#[test]
fn subtracting_keeps_repeats_and_order() {
    assert_eq!(subtract_sorted_rows(&[1, 1, 2, 3, 5, 5], &[2, 2, 5]), vec![1, 1, 3]);
    assert_eq!(subtract_sorted_rows(&[], &[1]), Vec::<usize>::new());
    assert_eq!(subtract_sorted_rows(&[4, 7], &[]), vec![4, 7]);
}

#[test]
fn no_active_filter_never_reports_progress() {
    let indexes: HashMap<usize, Arc<UniqueColumnIndex>> = HashMap::new();
    let mut filters = HashMap::new();
    filters.insert(0, UniqueFilter::Include(Vec::new()));
    let res = filter_from_unique_indexes(3, &indexes, &filters, |_, _| panic!("no progress expected"));
    assert!(matches!(res, Ok(FilterRows::All(3))));
}

#[test]
fn a_stop_after_the_first_filter_gives_no_rows() {
    let data = b"city,kind\nshanghai,a\nbeijing,b\n";
    let (index, unique_indexes) = index_first_column(data);
    let mut selected = HashMap::new();
    selected.insert(0, UniqueFilter::Include(strings(&["shanghai"])));
    let res = filter_from_unique_indexes(index.row_offsets.len(), &unique_indexes, &selected, |_, _| true);
    match res {
        Ok(FilterRows::Rows(rows)) => assert!(rows.is_empty()),
        _ => panic!("a stopped filter gives an empty row list"),
    }
}
