use csvfastview::viewer::{
    ROW_CACHE_AFTER, ROW_CACHE_BEFORE, ROW_CACHE_LIMIT, ROW_CACHE_ORDER_COMPACT_FACTOR,
    ROW_CACHE_TOUCH_STRIDE,
};
use csvfastview::{CachedRow, Job, VisibleRows};

#[test]
fn row_cache_eviction_keeps_recently_touched_rows() {
    let mut app = VisibleRows::new();
    app.set_all_rows(ROW_CACHE_LIMIT + 1);
    for row in 0..ROW_CACHE_LIMIT {
        app.insert_loaded_cells(row, vec![(0, row.to_string())]);
    }

    app.request_cached_row(0, &[0]);
    app.insert_loaded_cells(ROW_CACHE_LIMIT, vec![(0, "new".to_string())]);

    assert!(app.row_cache.contains_key(&0));
    assert!(!app.row_cache.contains_key(&1));
    assert_eq!(app.row_cache.len(), ROW_CACHE_LIMIT);
}

#[test]
fn row_cache_order_compaction_preserves_lru_order() {
    let mut app = VisibleRows::new();
    app.set_all_rows(3);
    app.insert_loaded_cells(0, vec![(0, "0".to_string())]);
    app.insert_loaded_cells(1, vec![(0, "1".to_string())]);
    app.insert_loaded_cells(2, vec![(0, "2".to_string())]);
    app.row_cache_access += ROW_CACHE_TOUCH_STRIDE;
    app.request_cached_row(1, &[0]);
    app.row_cache_access += ROW_CACHE_TOUCH_STRIDE;
    app.request_cached_row(0, &[0]);
    for _ in 0..=ROW_CACHE_LIMIT * ROW_CACHE_ORDER_COMPACT_FACTOR {
        app.row_cache_order.push_back((99, 1));
    }

    app.compact_row_cache_order_if_needed();

    let ordered_rows = app
        .row_cache_order
        .iter()
        .map(|(row, _)| *row)
        .collect::<Vec<_>>();
    assert_eq!(ordered_rows, vec![2, 1, 0]);
}

#[test]
fn row_cache_touch_skips_recent_rows() {
    let mut app = VisibleRows::new();
    app.set_all_rows(1);
    app.insert_loaded_cells(0, vec![(0, "0".to_string())]);
    let order_len = app.row_cache_order.len();
    app.request_cached_row(0, &[0]);

    assert_eq!(app.row_cache_order.len(), order_len);
}

#[test]
fn stale_row_reads_do_not_pollute_current_cache() {
    let mut app = VisibleRows {
        row_request_floor: 1,
        row_request_id: 2,
        ..VisibleRows::new()
    };

    app.apply_rows_read(1, vec![(5, vec![(0, "old".to_string())])]);
    assert!(!app.row_cache.contains_key(&5));

    app.apply_rows_read(2, vec![(6, vec![(0, "new".to_string())])]);
    assert_eq!(
        app.row_cache.get(&6).and_then(|row| row.get(0)),
        Some("new")
    );
}

#[test]
fn request_asks_for_the_window_around_a_position() {
    let mut app = VisibleRows::new();
    app.set_all_rows(1000);
    let job = app.request_cached_row(500, &[2, 0, 2]).expect("a request");
    match job {
        Job::ReadRows { request_id, rows, columns } => {
            assert_eq!(request_id, 1);
            assert_eq!(columns, vec![0, 2]);
            assert_eq!(rows.len(), ROW_CACHE_BEFORE + ROW_CACHE_AFTER + 1);
            assert_eq!(rows[0], (500, 500));
            assert_eq!(rows[ROW_CACHE_AFTER], (500 + ROW_CACHE_AFTER, 500 + ROW_CACHE_AFTER));
            assert_eq!(rows[ROW_CACHE_AFTER + 1], (499, 499));
            assert_eq!(rows[rows.len() - 1], (500 - ROW_CACHE_BEFORE, 500 - ROW_CACHE_BEFORE));
        }
        _ => panic!("a row request"),
    }
    assert!(app.request_cached_row(501, &[0]).is_none());
    app.apply_rows_read_done(1);
    assert!(app.requested_range.is_none());
}

#[test]
fn nothing_is_asked_for_positions_not_shown() {
    let mut app = VisibleRows::new();
    app.set_filtered_rows(vec![7, 9]);
    assert!(app.request_cached_row(2, &[0]).is_none());
    assert!(app.request_cached_row(0, &[]).is_none());
    let job = app.request_cached_row(1, &[0]).expect("a request");
    match job {
        Job::ReadRows { rows, .. } => assert_eq!(rows, vec![(1, 9), (0, 7)]),
        _ => panic!("a row request"),
    }
}

#[test]
fn cached_rows_merge_new_cells_by_column() {
    let mut app = VisibleRows::new();
    app.set_all_rows(1);
    app.insert_loaded_cells(0, vec![(0, "a".to_string()), (2, "c".to_string())]);
    app.insert_loaded_cells(0, vec![(1, "b".to_string()), (2, "C".to_string())]);
    let row = app.row_cache.get(&0).expect("cached");
    assert_eq!(row.get(0), Some("a"));
    assert_eq!(row.get(1), Some("b"));
    assert_eq!(row.get(2), Some("C"));
    assert!(row.has_columns(&[0, 1, 2]));
    assert!(!row.has_columns(&[3]));
}

#[test]
fn retaining_columns_drops_the_others() {
    let mut row = CachedRow::empty();
    row.insert_cells(vec![(0, "a".to_string()), (1, "b".to_string()), (4, "e".to_string())]);
    row.retain_columns(&[1, 4]);
    assert_eq!(row.get(0), None);
    assert_eq!(row.get(1), Some("b"));
    assert_eq!(row.get(4), Some("e"));
}

#[test]
fn clearing_rows_makes_older_replies_stale() {
    let mut app = VisibleRows::new();
    app.set_all_rows(10);
    let _ = app.request_cached_row(0, &[0]);
    let id = app.row_request_id;
    app.clear_rows();
    app.apply_rows_read(id, vec![(0, vec![(0, "late".to_string())])]);
    assert!(app.row_cache.is_empty());
    assert_eq!(app.row_request_floor, app.row_request_id);
}

#[test]
fn all_except_rows_are_sorted_and_deduplicated() {
    let mut app = VisibleRows::new();
    app.set_all_except_rows(6, vec![4, 1, 4]);
    assert_eq!(app.logical_rows.len(), 4);
    assert_eq!(app.logical_rows.get(1), Some(2));
    assert_eq!(app.logical_rows.get(3), Some(5));
}
